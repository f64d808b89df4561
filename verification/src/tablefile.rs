//! Table persistence: the move and pruning tables as one byte blob. Each of
//! the ten grids is encoded in a fixed order with a standard variable-length
//! integer encoding; the reader consumes the blob exactly, and trailing
//! bytes mean corruption.

use vstd::prelude::*;

use crate::error::Error;
use crate::pruning::{grid_dims, DataTable, PruningTable};
use crate::table::MoveTable;

verus! {

/// The byte encoding of a grid of 16-bit entries.
pub uninterp spec fn u16_grid_bytes(t: Seq<Seq<u16>>) -> Seq<u8>;

/// The byte encoding of a grid of 8-bit entries.
pub uninterp spec fn u8_grid_bytes(t: Seq<Seq<u8>>) -> Seq<u8>;

/// Relies on bincode::encode_to_vec with the standard configuration: the
/// bytes are a function of the grid alone, and encoding into a growable
/// vector cannot fail (both of bincode's writers always accept the bytes).
#[verifier::external_body]
fn encode_u16_grid(t: &Vec<Vec<u16>>) -> (r: Vec<u8>)
    ensures
        r@ == u16_grid_bytes(t.deep_view()),
{
    bincode::encode_to_vec(t, bincode::config::standard()).unwrap()
}

/// Relies on bincode::encode_to_vec with the standard configuration.
#[verifier::external_body]
fn encode_u8_grid(t: &Vec<Vec<u8>>) -> (r: Vec<u8>)
    ensures
        r@ == u8_grid_bytes(t.deep_view()),
{
    bincode::encode_to_vec(t, bincode::config::standard()).unwrap()
}

/// Decoding inverts encoding: whenever the input at `from` starts with the
/// encoding of a grid of cube-table shape (at most 40320 rows of at most 18
/// entries), the result holds exactly that grid and reports exactly its
/// encoding consumed.
pub open spec fn u16_decode_inverts(
    bytes: Seq<u8>,
    from: int,
    r: Option<(Vec<Vec<u16>>, usize)>,
) -> bool {
    forall|g: Seq<Seq<u16>>|
        g.len() <= 40320 && (forall|i: int| 0 <= i < g.len() ==> (#[trigger] g[i]).len() <= 18)
            && from + u16_grid_bytes(g).len() <= bytes.len() && bytes.subrange(
            from,
            from + u16_grid_bytes(g).len(),
        ) == #[trigger] u16_grid_bytes(g) ==> (r matches Some(p) && p.0.deep_view() == g
            && p.1 as int == u16_grid_bytes(g).len())
}

/// The same inversion statement for grids of 8-bit entries, of at most
/// 40320 rows of at most 495 entries.
pub open spec fn u8_decode_inverts(
    bytes: Seq<u8>,
    from: int,
    r: Option<(Vec<Vec<u8>>, usize)>,
) -> bool {
    forall|g: Seq<Seq<u8>>|
        g.len() <= 40320 && (forall|i: int| 0 <= i < g.len() ==> (#[trigger] g[i]).len() <= 495)
            && from + u8_grid_bytes(g).len() <= bytes.len() && bytes.subrange(
            from,
            from + u8_grid_bytes(g).len(),
        ) == #[trigger] u8_grid_bytes(g) ==> (r matches Some(p) && p.0.deep_view() == g
            && p.1 as int == u8_grid_bytes(g).len())
}

/// Relies on bincode::decode_from_slice with the standard configuration
/// under a generous byte limit: on success it hands back the decoded grid
/// and how many bytes it read, never more than the slice holds. The limit
/// makes the decoder reject a corrupt length claim instead of allocating
/// for it, so the call returns an error rather than panicking; it is far
/// above what any cube-table grid claims, so decoding stays complete on
/// them. The reader consumes the input incrementally and decoding inverts
/// encoding, so whenever the input at `from` starts with the encoding of a
/// grid of table shape, exactly that grid comes back and exactly its
/// encoding is consumed.
#[verifier::external_body]
fn decode_u16_grid(bytes: &[u8], from: usize) -> (r: Option<(Vec<Vec<u16>>, usize)>)
    requires
        from <= bytes@.len(),
    ensures
        r matches Some(p) ==> from + p.1 <= bytes@.len(),
        u16_decode_inverts(bytes@, from as int, r),
{
    let config = bincode::config::standard().with_limit::<67108864>();
    match bincode::decode_from_slice(&bytes[from..], config) {
        Ok((v, used)) => Some((v, used)),
        Err(_) => None,
    }
}

/// Relies on bincode::decode_from_slice with the standard configuration
/// under the same limit, with the same inversion guarantee.
#[verifier::external_body]
fn decode_u8_grid(bytes: &[u8], from: usize) -> (r: Option<(Vec<Vec<u8>>, usize)>)
    requires
        from <= bytes@.len(),
    ensures
        r matches Some(p) ==> from + p.1 <= bytes@.len(),
        u8_decode_inverts(bytes@, from as int, r),
{
    let config = bincode::config::standard().with_limit::<67108864>();
    match bincode::decode_from_slice(&bytes[from..], config) {
        Ok((v, used)) => Some((v, used)),
        Err(_) => None,
    }
}

/// Append a byte vector to the blob.
fn extend_bytes(blob: &mut Vec<u8>, part: Vec<u8>)
    ensures
        final(blob)@ == old(blob)@ + part@,
{
    let n = part.len();
    for i in 0..n
        invariant
            n == part@.len(),
            blob@ == old(blob)@ + part@.take(i as int),
    {
        blob.push(part[i]);
        proof {
            assert(blob@ =~= old(blob)@ + part@.take(i + 1));
        }
    }
    proof {
        assert(old(blob)@ + part@.take(n as int) =~= old(blob)@ + part@);
    }
}

/// The blob of a data table: the six move grids then the four pruning
/// grids, each encoded on its own, concatenated.
pub open spec fn table_blob(t: DataTable) -> Seq<u8> {
    u16_grid_bytes(t.move_table.co.deep_view()) + u16_grid_bytes(t.move_table.eo.deep_view())
        + u16_grid_bytes(t.move_table.e_combo.deep_view()) + u16_grid_bytes(
        t.move_table.cp.deep_view(),
    ) + u16_grid_bytes(t.move_table.ep.deep_view()) + u16_grid_bytes(
        t.move_table.e_ep.deep_view(),
    ) + u8_grid_bytes(t.pruning_table.co_e.deep_view()) + u8_grid_bytes(
        t.pruning_table.eo_e.deep_view(),
    ) + u8_grid_bytes(t.pruning_table.cp_e.deep_view()) + u8_grid_bytes(
        t.pruning_table.ep_e.deep_view(),
    )
}

/// The `k`-th of the ten encoded grids of a data table.
pub open spec fn blob_part(t: DataTable, k: int) -> Seq<u8> {
    if k == 0 {
        u16_grid_bytes(t.move_table.co.deep_view())
    } else if k == 1 {
        u16_grid_bytes(t.move_table.eo.deep_view())
    } else if k == 2 {
        u16_grid_bytes(t.move_table.e_combo.deep_view())
    } else if k == 3 {
        u16_grid_bytes(t.move_table.cp.deep_view())
    } else if k == 4 {
        u16_grid_bytes(t.move_table.ep.deep_view())
    } else if k == 5 {
        u16_grid_bytes(t.move_table.e_ep.deep_view())
    } else if k == 6 {
        u8_grid_bytes(t.pruning_table.co_e.deep_view())
    } else if k == 7 {
        u8_grid_bytes(t.pruning_table.eo_e.deep_view())
    } else if k == 8 {
        u8_grid_bytes(t.pruning_table.cp_e.deep_view())
    } else {
        u8_grid_bytes(t.pruning_table.ep_e.deep_view())
    }
}

/// Where the `k`-th encoded grid starts inside the blob.
pub open spec fn blob_offset(t: DataTable, k: int) -> int
    decreases k,
{
    if k <= 0 {
        0
    } else {
        blob_offset(t, k - 1) + blob_part(t, k - 1).len()
    }
}

/// The blob of `t` stands at the front of `bytes`, whatever follows it.
pub open spec fn blob_prefix(t: DataTable, bytes: Seq<u8>) -> bool {
    &&& table_blob(t).len() <= bytes.len()
    &&& bytes.subrange(0, table_blob(t).len() as int) == table_blob(t)
}

/// Inside any input it prefixes, the blob is the ten encoded grids laid
/// end to end.
proof fn lemma_blob_segments(t: DataTable, bytes: Seq<u8>)
    requires
        blob_prefix(t, bytes),
    ensures
        table_blob(t).len() == blob_offset(t, 10),
        forall|k: int|
            0 <= k < 10 ==> bytes.subrange(blob_offset(t, k), blob_offset(t, k + 1))
                == #[trigger] blob_part(t, k),
        forall|k: int| 0 <= k <= 10 ==> 0 <= #[trigger] blob_offset(t, k) <= bytes.len(),
{
    let blob = table_blob(t);
    let e0 = u16_grid_bytes(t.move_table.co.deep_view());
    let e1 = u16_grid_bytes(t.move_table.eo.deep_view());
    let e2 = u16_grid_bytes(t.move_table.e_combo.deep_view());
    let e3 = u16_grid_bytes(t.move_table.cp.deep_view());
    let e4 = u16_grid_bytes(t.move_table.ep.deep_view());
    let e5 = u16_grid_bytes(t.move_table.e_ep.deep_view());
    let e6 = u8_grid_bytes(t.pruning_table.co_e.deep_view());
    let e7 = u8_grid_bytes(t.pruning_table.eo_e.deep_view());
    let e8 = u8_grid_bytes(t.pruning_table.cp_e.deep_view());
    let e9 = u8_grid_bytes(t.pruning_table.ep_e.deep_view());
    assert(blob_offset(t, 0) == 0);
    assert(blob_offset(t, 1) == blob_offset(t, 0) + e0.len());
    assert(blob_offset(t, 2) == blob_offset(t, 1) + e1.len());
    assert(blob_offset(t, 3) == blob_offset(t, 2) + e2.len());
    assert(blob_offset(t, 4) == blob_offset(t, 3) + e3.len());
    assert(blob_offset(t, 5) == blob_offset(t, 4) + e4.len());
    assert(blob_offset(t, 6) == blob_offset(t, 5) + e5.len());
    assert(blob_offset(t, 7) == blob_offset(t, 6) + e6.len());
    assert(blob_offset(t, 8) == blob_offset(t, 7) + e7.len());
    assert(blob_offset(t, 9) == blob_offset(t, 8) + e8.len());
    assert(blob_offset(t, 10) == blob_offset(t, 9) + e9.len());
    assert(blob.len() == blob_offset(t, 10));
    assert forall|k: int| 0 <= k <= 10 implies 0 <= #[trigger] blob_offset(t, k)
        <= bytes.len() by {
        lemma_blob_offset_nonneg(t, k);
        lemma_blob_offset_bounds(t, k);
    }
    assert forall|x: int| 0 <= x < blob.len() implies bytes[x] == blob[x] by {
        assert(bytes.subrange(0, blob.len() as int)[x] == bytes[x]);
    }
    assert(bytes.subrange(blob_offset(t, 0), blob_offset(t, 1)) =~= blob.subrange(
        blob_offset(t, 0),
        blob_offset(t, 1),
    ));
    assert(blob.subrange(blob_offset(t, 0), blob_offset(t, 1)) =~= blob_part(t, 0));
    assert(bytes.subrange(blob_offset(t, 1), blob_offset(t, 2)) =~= blob.subrange(
        blob_offset(t, 1),
        blob_offset(t, 2),
    ));
    assert(blob.subrange(blob_offset(t, 1), blob_offset(t, 2)) =~= blob_part(t, 1));
    assert(bytes.subrange(blob_offset(t, 2), blob_offset(t, 3)) =~= blob.subrange(
        blob_offset(t, 2),
        blob_offset(t, 3),
    ));
    assert(blob.subrange(blob_offset(t, 2), blob_offset(t, 3)) =~= blob_part(t, 2));
    assert(bytes.subrange(blob_offset(t, 3), blob_offset(t, 4)) =~= blob.subrange(
        blob_offset(t, 3),
        blob_offset(t, 4),
    ));
    assert(blob.subrange(blob_offset(t, 3), blob_offset(t, 4)) =~= blob_part(t, 3));
    assert(bytes.subrange(blob_offset(t, 4), blob_offset(t, 5)) =~= blob.subrange(
        blob_offset(t, 4),
        blob_offset(t, 5),
    ));
    assert(blob.subrange(blob_offset(t, 4), blob_offset(t, 5)) =~= blob_part(t, 4));
    assert(bytes.subrange(blob_offset(t, 5), blob_offset(t, 6)) =~= blob.subrange(
        blob_offset(t, 5),
        blob_offset(t, 6),
    ));
    assert(blob.subrange(blob_offset(t, 5), blob_offset(t, 6)) =~= blob_part(t, 5));
    assert(bytes.subrange(blob_offset(t, 6), blob_offset(t, 7)) =~= blob.subrange(
        blob_offset(t, 6),
        blob_offset(t, 7),
    ));
    assert(blob.subrange(blob_offset(t, 6), blob_offset(t, 7)) =~= blob_part(t, 6));
    assert(bytes.subrange(blob_offset(t, 7), blob_offset(t, 8)) =~= blob.subrange(
        blob_offset(t, 7),
        blob_offset(t, 8),
    ));
    assert(blob.subrange(blob_offset(t, 7), blob_offset(t, 8)) =~= blob_part(t, 7));
    assert(bytes.subrange(blob_offset(t, 8), blob_offset(t, 9)) =~= blob.subrange(
        blob_offset(t, 8),
        blob_offset(t, 9),
    ));
    assert(blob.subrange(blob_offset(t, 8), blob_offset(t, 9)) =~= blob_part(t, 8));
    assert(bytes.subrange(blob_offset(t, 9), blob_offset(t, 10)) =~= blob.subrange(
        blob_offset(t, 9),
        blob_offset(t, 10),
    ));
    assert(blob.subrange(blob_offset(t, 9), blob_offset(t, 10)) =~= blob_part(t, 9));
}

proof fn lemma_blob_offset_nonneg(t: DataTable, k: int)
    ensures
        0 <= blob_offset(t, k),
    decreases k,
{
    if k > 0 {
        lemma_blob_offset_nonneg(t, k - 1);
    }
}


proof fn lemma_blob_offset_bounds(t: DataTable, k: int)
    requires
        0 <= k <= 10,
    ensures
        blob_offset(t, k) <= blob_offset(t, 10),
    decreases 10 - k,
{
    if k < 10 {
        lemma_blob_offset_bounds(t, k + 1);
    }
}

/// Encode a data table as one byte blob.
pub fn encode_table(table: &DataTable) -> (r: Vec<u8>)
    ensures
        r@ == table_blob(*table),
{
    let mut blob: Vec<u8> = Vec::new();
    extend_bytes(&mut blob, encode_u16_grid(&table.move_table.co));
    extend_bytes(&mut blob, encode_u16_grid(&table.move_table.eo));
    extend_bytes(&mut blob, encode_u16_grid(&table.move_table.e_combo));
    extend_bytes(&mut blob, encode_u16_grid(&table.move_table.cp));
    extend_bytes(&mut blob, encode_u16_grid(&table.move_table.ep));
    extend_bytes(&mut blob, encode_u16_grid(&table.move_table.e_ep));
    extend_bytes(&mut blob, encode_u8_grid(&table.pruning_table.co_e));
    extend_bytes(&mut blob, encode_u8_grid(&table.pruning_table.eo_e));
    extend_bytes(&mut blob, encode_u8_grid(&table.pruning_table.cp_e));
    extend_bytes(&mut blob, encode_u8_grid(&table.pruning_table.ep_e));
    proof {
        assert(blob@ =~= table_blob(*table));
    }
    blob
}

/// Check that a decoded grid has the given dimensions and entries below
/// the bound.
fn check_u16_grid(t: &Vec<Vec<u16>>, rows: usize, cols: usize, bound: u16) -> (r: bool)
    ensures
        r == (t@.len() == rows && (forall|i: int|
            0 <= i < rows ==> (#[trigger] t@[i])@.len() == cols) && (forall|i: int, j: int|
            0 <= i < rows && 0 <= j < cols ==> (#[trigger] t@[i]@[j]) < bound)),
{
    if t.len() != rows {
        return false;
    }
    let mut ok = true;
    for i in 0..rows
        invariant
            t@.len() == rows,
            ok == ((forall|a: int| 0 <= a < i ==> (#[trigger] t@[a])@.len() == cols) && (forall|
                a: int,
                b: int,
            |
                0 <= a < i && 0 <= b < cols ==> (#[trigger] t@[a]@[b]) < bound)),
    {
        if t[i].len() != cols {
            ok = false;
        } else {
            for j in 0..cols
                invariant
                    i < rows,
                    t@.len() == rows,
                    t@[i as int]@.len() == cols,
                    ok == ((forall|a: int| 0 <= a < i ==> (#[trigger] t@[a])@.len() == cols) && (
                    forall|a: int, b: int|
                        (0 <= a < i && 0 <= b < cols) || (a == i && 0 <= b < j) ==> (#[trigger] t@[a]@[b])
                            < bound)),
            {
                if t[i][j] >= bound {
                    proof {
                        assert(t@[i as int]@[j as int] >= bound);
                    }
                    ok = false;
                }
            }
        }
    }
    ok
}

/// Check the dimensions of a decoded pruning grid.
fn check_u8_grid(t: &Vec<Vec<u8>>, rows: usize, cols: usize) -> (r: bool)
    ensures
        r == grid_dims(t@, rows as int, cols as int),
{
    if t.len() != rows {
        return false;
    }
    let mut ok = true;
    for i in 0..rows
        invariant
            t@.len() == rows,
            ok == (forall|a: int| 0 <= a < i ==> (#[trigger] t@[a])@.len() == cols),
    {
        if t[i].len() != cols {
            ok = false;
        }
    }
    ok
}

/// Decode a data table from a byte blob. The blob must hold the ten grids
/// and nothing else; a decode failure, a grid of the wrong shape, a move
/// entry out of range, or trailing bytes all fail. On the blob of any
/// well-shaped table, decoding succeeds and reproduces its grids; with
/// anything appended to such a blob, it fails.
#[verifier::rlimit(100)]
#[verifier::spinoff_prover]
pub fn decode_table(bytes: &[u8]) -> (r: Result<DataTable, Error>)
    ensures
        r matches Ok(dt) ==> dt.move_table.wf_dims() && dt.pruning_table.wf(),
        forall|t: DataTable|
            t.move_table.wf_dims() && t.pruning_table.wf() && bytes@ == table_blob(t) ==> (
            r matches Ok(dt) && dt.move_table.co.deep_view() == t.move_table.co.deep_view()
                && dt.move_table.eo.deep_view() == t.move_table.eo.deep_view()
                && dt.move_table.e_combo.deep_view() == t.move_table.e_combo.deep_view()
                && dt.move_table.cp.deep_view() == t.move_table.cp.deep_view()
                && dt.move_table.ep.deep_view() == t.move_table.ep.deep_view()
                && dt.move_table.e_ep.deep_view() == t.move_table.e_ep.deep_view()
                && dt.pruning_table.co_e.deep_view() == t.pruning_table.co_e.deep_view()
                && dt.pruning_table.eo_e.deep_view() == t.pruning_table.eo_e.deep_view()
                && dt.pruning_table.cp_e.deep_view() == t.pruning_table.cp_e.deep_view()
                && dt.pruning_table.ep_e.deep_view() == t.pruning_table.ep_e.deep_view()),
        forall|t: DataTable, extra: Seq<u8>|
            #![trigger table_blob(t) + extra]
            t.move_table.wf_dims() && t.pruning_table.wf() && extra.len() > 0 && bytes@
                == table_blob(t) + extra ==> r is Err,
{
    let total = bytes.len();
    let mut at: usize = 0;
    let ghost at0 = at as int;
    let res = decode_u16_grid(bytes, at);
    let ghost rg0 = res;
    let (co, used) = match res {
        Some(p) => p,
        None => {
            proof {
                assert forall|t: DataTable|
                    t.move_table.wf_dims() && t.pruning_table.wf() && bytes@ == table_blob(
                        t,
                    ) implies false by {
                    assert(bytes@.subrange(0, table_blob(t).len() as int) =~= table_blob(
                        t,
                    ));
                    assert(blob_prefix(t, bytes@));
                    lemma_blob_forces_0(t, bytes@, at0, rg0);
                }
            }
            return Err(Error::DecodeError);
        },
    };
    proof {
        assert(at + used <= bytes@.len());
    }
    at = at + used;

    let ghost at1 = at as int;
    let res = decode_u16_grid(bytes, at);
    let ghost rg1 = res;
    let (eo, used) = match res {
        Some(p) => p,
        None => {
            proof {
                assert forall|t: DataTable|
                    t.move_table.wf_dims() && t.pruning_table.wf() && bytes@ == table_blob(
                        t,
                    ) implies false by {
                    assert(bytes@.subrange(0, table_blob(t).len() as int) =~= table_blob(
                        t,
                    ));
                    assert(blob_prefix(t, bytes@));
                    lemma_blob_forces_1(t, bytes@, at0, rg0, at1, rg1);
                }
            }
            return Err(Error::DecodeError);
        },
    };
    proof {
        assert(at + used <= bytes@.len());
    }
    at = at + used;

    let ghost at2 = at as int;
    let res = decode_u16_grid(bytes, at);
    let ghost rg2 = res;
    let (e_combo, used) = match res {
        Some(p) => p,
        None => {
            proof {
                assert forall|t: DataTable|
                    t.move_table.wf_dims() && t.pruning_table.wf() && bytes@ == table_blob(
                        t,
                    ) implies false by {
                    assert(bytes@.subrange(0, table_blob(t).len() as int) =~= table_blob(
                        t,
                    ));
                    assert(blob_prefix(t, bytes@));
                    lemma_blob_forces_2(t, bytes@, at0, rg0, at1, rg1, at2, rg2);
                }
            }
            return Err(Error::DecodeError);
        },
    };
    proof {
        assert(at + used <= bytes@.len());
    }
    at = at + used;

    let ghost at3 = at as int;
    let res = decode_u16_grid(bytes, at);
    let ghost rg3 = res;
    let (cp, used) = match res {
        Some(p) => p,
        None => {
            proof {
                assert forall|t: DataTable|
                    t.move_table.wf_dims() && t.pruning_table.wf() && bytes@ == table_blob(
                        t,
                    ) implies false by {
                    assert(bytes@.subrange(0, table_blob(t).len() as int) =~= table_blob(
                        t,
                    ));
                    assert(blob_prefix(t, bytes@));
                    lemma_blob_forces_3(t, bytes@, at0, rg0, at1, rg1, at2, rg2, at3, rg3);
                }
            }
            return Err(Error::DecodeError);
        },
    };
    proof {
        assert(at + used <= bytes@.len());
    }
    at = at + used;

    let ghost at4 = at as int;
    let res = decode_u16_grid(bytes, at);
    let ghost rg4 = res;
    let (ep, used) = match res {
        Some(p) => p,
        None => {
            proof {
                assert forall|t: DataTable|
                    t.move_table.wf_dims() && t.pruning_table.wf() && bytes@ == table_blob(
                        t,
                    ) implies false by {
                    assert(bytes@.subrange(0, table_blob(t).len() as int) =~= table_blob(
                        t,
                    ));
                    assert(blob_prefix(t, bytes@));
                    lemma_blob_forces_4(t, bytes@, at0, rg0, at1, rg1, at2, rg2, at3, rg3, at4, rg4);
                }
            }
            return Err(Error::DecodeError);
        },
    };
    proof {
        assert(at + used <= bytes@.len());
    }
    at = at + used;

    let ghost at5 = at as int;
    let res = decode_u16_grid(bytes, at);
    let ghost rg5 = res;
    let (e_ep, used) = match res {
        Some(p) => p,
        None => {
            proof {
                assert forall|t: DataTable|
                    t.move_table.wf_dims() && t.pruning_table.wf() && bytes@ == table_blob(
                        t,
                    ) implies false by {
                    assert(bytes@.subrange(0, table_blob(t).len() as int) =~= table_blob(
                        t,
                    ));
                    assert(blob_prefix(t, bytes@));
                    lemma_blob_forces_5(t, bytes@, at0, rg0, at1, rg1, at2, rg2, at3, rg3, at4, rg4, at5, rg5);
                }
            }
            return Err(Error::DecodeError);
        },
    };
    proof {
        assert(at + used <= bytes@.len());
    }
    at = at + used;

    let ghost at6 = at as int;
    let res = decode_u8_grid(bytes, at);
    let ghost rg6 = res;
    let (co_e, used) = match res {
        Some(p) => p,
        None => {
            proof {
                assert forall|t: DataTable|
                    t.move_table.wf_dims() && t.pruning_table.wf() && bytes@ == table_blob(
                        t,
                    ) implies false by {
                    assert(bytes@.subrange(0, table_blob(t).len() as int) =~= table_blob(
                        t,
                    ));
                    assert(blob_prefix(t, bytes@));
                    lemma_blob_forces_6(t, bytes@, at0, rg0, at1, rg1, at2, rg2, at3, rg3, at4, rg4, at5, rg5, at6, rg6);
                }
            }
            return Err(Error::DecodeError);
        },
    };
    proof {
        assert(at + used <= bytes@.len());
    }
    at = at + used;

    let ghost at7 = at as int;
    let res = decode_u8_grid(bytes, at);
    let ghost rg7 = res;
    let (eo_e, used) = match res {
        Some(p) => p,
        None => {
            proof {
                assert forall|t: DataTable|
                    t.move_table.wf_dims() && t.pruning_table.wf() && bytes@ == table_blob(
                        t,
                    ) implies false by {
                    assert(bytes@.subrange(0, table_blob(t).len() as int) =~= table_blob(
                        t,
                    ));
                    assert(blob_prefix(t, bytes@));
                    lemma_blob_forces_7(t, bytes@, at0, rg0, at1, rg1, at2, rg2, at3, rg3, at4, rg4, at5, rg5, at6, rg6, at7, rg7);
                }
            }
            return Err(Error::DecodeError);
        },
    };
    proof {
        assert(at + used <= bytes@.len());
    }
    at = at + used;

    let ghost at8 = at as int;
    let res = decode_u8_grid(bytes, at);
    let ghost rg8 = res;
    let (cp_e, used) = match res {
        Some(p) => p,
        None => {
            proof {
                assert forall|t: DataTable|
                    t.move_table.wf_dims() && t.pruning_table.wf() && bytes@ == table_blob(
                        t,
                    ) implies false by {
                    assert(bytes@.subrange(0, table_blob(t).len() as int) =~= table_blob(
                        t,
                    ));
                    assert(blob_prefix(t, bytes@));
                    lemma_blob_forces_8(t, bytes@, at0, rg0, at1, rg1, at2, rg2, at3, rg3, at4, rg4, at5, rg5, at6, rg6, at7, rg7, at8, rg8);
                }
            }
            return Err(Error::DecodeError);
        },
    };
    proof {
        assert(at + used <= bytes@.len());
    }
    at = at + used;

    let ghost at9 = at as int;
    let res = decode_u8_grid(bytes, at);
    let ghost rg9 = res;
    let (ep_e, used) = match res {
        Some(p) => p,
        None => {
            proof {
                assert forall|t: DataTable|
                    t.move_table.wf_dims() && t.pruning_table.wf() && bytes@ == table_blob(
                        t,
                    ) implies false by {
                    assert(bytes@.subrange(0, table_blob(t).len() as int) =~= table_blob(
                        t,
                    ));
                    assert(blob_prefix(t, bytes@));
                    lemma_blob_forces_9(t, bytes@, at0, rg0, at1, rg1, at2, rg2, at3, rg3, at4, rg4, at5, rg5, at6, rg6, at7, rg7, at8, rg8, at9, rg9);
                }
            }
            return Err(Error::DecodeError);
        },
    };
    proof {
        assert(at + used <= bytes@.len());
    }
    at = at + used;

    if at != total {
        proof {
            assert forall|t: DataTable|
                t.move_table.wf_dims() && t.pruning_table.wf() && bytes@ == table_blob(
                    t,
                ) implies false by {
                    assert(bytes@.subrange(0, table_blob(t).len() as int) =~= table_blob(
                        t,
                    ));
                    assert(blob_prefix(t, bytes@));
                    lemma_blob_forces_9(t, bytes@, at0, rg0, at1, rg1, at2, rg2, at3, rg3, at4, rg4, at5, rg5, at6, rg6, at7, rg7, at8, rg8, at9, rg9);
                    lemma_blob_segments(t, bytes@);
                    assert(at as int == blob_offset(t, 10));
                    assert(at as int == bytes@.len());
            }
        }
        return Err(Error::DecodeError);
    }

    let shapes_ok = check_u16_grid(&co, 2187, 18, 2187) && check_u16_grid(&eo, 2048, 18, 2048)
        && check_u16_grid(&e_combo, 495, 18, 495) && check_u16_grid(&cp, 40320, 10, 40320)
        && check_u16_grid(&ep, 40320, 10, 40320) && check_u16_grid(&e_ep, 24, 10, 24)
        && check_u8_grid(&co_e, 2187, 495) && check_u8_grid(&eo_e, 2048, 495) && check_u8_grid(
        &cp_e,
        40320,
        24,
    ) && check_u8_grid(&ep_e, 40320, 24);
    if !shapes_ok {
        proof {
            assert forall|t: DataTable|
                t.move_table.wf_dims() && t.pruning_table.wf() && bytes@ == table_blob(
                    t,
                ) implies false by {
                    assert(bytes@.subrange(0, table_blob(t).len() as int) =~= table_blob(
                        t,
                    ));
                    assert(blob_prefix(t, bytes@));
                    lemma_blob_forces_9(t, bytes@, at0, rg0, at1, rg1, at2, rg2, at3, rg3, at4, rg4, at5, rg5, at6, rg6, at7, rg7, at8, rg8, at9, rg9);
                    lemma_blob_segments(t, bytes@);
                    assert(at as int == blob_offset(t, 10));
                    assert(co.deep_view() == t.move_table.co.deep_view());
                    assert(eo.deep_view() == t.move_table.eo.deep_view());
                    assert(e_combo.deep_view() == t.move_table.e_combo.deep_view());
                    assert(cp.deep_view() == t.move_table.cp.deep_view());
                    assert(ep.deep_view() == t.move_table.ep.deep_view());
                    assert(e_ep.deep_view() == t.move_table.e_ep.deep_view());
                    assert(co_e.deep_view() == t.pruning_table.co_e.deep_view());
                    assert(eo_e.deep_view() == t.pruning_table.eo_e.deep_view());
                    assert(cp_e.deep_view() == t.pruning_table.cp_e.deep_view());
                    assert(ep_e.deep_view() == t.pruning_table.ep_e.deep_view());
                lemma_views_forced(
                    t,
                    co@, co.deep_view(),
                    eo@, eo.deep_view(),
                    e_combo@, e_combo.deep_view(),
                    cp@, cp.deep_view(),
                    ep@, ep.deep_view(),
                    e_ep@, e_ep.deep_view(),
                    co_e@, co_e.deep_view(),
                    eo_e@, eo_e.deep_view(),
                    cp_e@, cp_e.deep_view(),
                    ep_e@, ep_e.deep_view(),
                );
            }
        }
        return Err(Error::DecodeError);
    }
    let dt = DataTable {
        move_table: MoveTable { co, eo, e_combo, cp, ep, e_ep },
        pruning_table: PruningTable { co_e, eo_e, cp_e, ep_e },
    };
    proof {
        assert forall|t: DataTable|
            t.move_table.wf_dims() && t.pruning_table.wf() && bytes@ == table_blob(
                t,
            ) implies dt.move_table.co.deep_view() == t.move_table.co.deep_view()
            && dt.move_table.eo.deep_view() == t.move_table.eo.deep_view()
            && dt.move_table.e_combo.deep_view() == t.move_table.e_combo.deep_view()
            && dt.move_table.cp.deep_view() == t.move_table.cp.deep_view()
            && dt.move_table.ep.deep_view() == t.move_table.ep.deep_view()
            && dt.move_table.e_ep.deep_view() == t.move_table.e_ep.deep_view()
            && dt.pruning_table.co_e.deep_view() == t.pruning_table.co_e.deep_view()
            && dt.pruning_table.eo_e.deep_view() == t.pruning_table.eo_e.deep_view()
            && dt.pruning_table.cp_e.deep_view() == t.pruning_table.cp_e.deep_view()
            && dt.pruning_table.ep_e.deep_view() == t.pruning_table.ep_e.deep_view() by {
                    assert(bytes@.subrange(0, table_blob(t).len() as int) =~= table_blob(
                        t,
                    ));
                    assert(blob_prefix(t, bytes@));
                    lemma_blob_forces_9(t, bytes@, at0, rg0, at1, rg1, at2, rg2, at3, rg3, at4, rg4, at5, rg5, at6, rg6, at7, rg7, at8, rg8, at9, rg9);
                    lemma_blob_segments(t, bytes@);
                    assert(at as int == blob_offset(t, 10));
        }
        assert forall|t: DataTable, extra: Seq<u8>|
            #![trigger table_blob(t) + extra]
            t.move_table.wf_dims() && t.pruning_table.wf() && extra.len() > 0 && bytes@
                == table_blob(t) + extra implies false by {
            assert(bytes@.len() == table_blob(t).len() + extra.len());
            assert(bytes@.subrange(0, table_blob(t).len() as int) =~= table_blob(t));
            assert(blob_prefix(t, bytes@));
            lemma_blob_forces_9(t, bytes@, at0, rg0, at1, rg1, at2, rg2, at3, rg3, at4, rg4, at5, rg5, at6, rg6, at7, rg7, at8, rg8, at9, rg9);
            lemma_blob_segments(t, bytes@);
            assert(at as int == blob_offset(t, 10));
            assert(at as int == table_blob(t).len());
            assert(at as int == bytes@.len());
        }
    }
    Ok(dt)
}

proof fn lemma_blob_forces_0(
    t: DataTable,
    bytes: Seq<u8>,
    at0: int,
    rg0: Option<(Vec<Vec<u16>>, usize)>,
)
    requires
        t.move_table.wf_dims(),
        t.pruning_table.wf(),
        blob_prefix(t, bytes),
        u16_decode_inverts(bytes, at0, rg0),
        at0 == 0,
    ensures
        rg0 matches Some(p) && p.0.deep_view() == t.move_table.co.deep_view() && p.1 as int == blob_part(t, 0).len(),
        (rg0 matches Some(p) ==> at0 + p.1 == blob_offset(t, 1)),
{
    lemma_table_dims(t);
    assert(blob_offset(t, 0) == 0);
    assert(blob_part(t, 0) == u16_grid_bytes(t.move_table.co.deep_view()));
    lemma_chain_step_u16(t, bytes, 0, at0, t.move_table.co.deep_view(), rg0);
}

proof fn lemma_blob_forces_1(
    t: DataTable,
    bytes: Seq<u8>,
    at0: int,
    rg0: Option<(Vec<Vec<u16>>, usize)>,
    at1: int,
    rg1: Option<(Vec<Vec<u16>>, usize)>,
)
    requires
        t.move_table.wf_dims(),
        t.pruning_table.wf(),
        blob_prefix(t, bytes),
        u16_decode_inverts(bytes, at0, rg0),
        rg0 matches Some(p) ==> at1 == at0 + p.1,
        u16_decode_inverts(bytes, at1, rg1),
        at0 == 0,
    ensures
        rg0 matches Some(p) && p.0.deep_view() == t.move_table.co.deep_view() && p.1 as int == blob_part(t, 0).len(),
        rg1 matches Some(p) && p.0.deep_view() == t.move_table.eo.deep_view() && p.1 as int == blob_part(t, 1).len(),
        (rg1 matches Some(p) ==> at1 + p.1 == blob_offset(t, 2)),
{
    lemma_table_dims(t);
    assert(blob_offset(t, 0) == 0);
    assert(blob_part(t, 0) == u16_grid_bytes(t.move_table.co.deep_view()));
    lemma_chain_step_u16(t, bytes, 0, at0, t.move_table.co.deep_view(), rg0);
    assert(at1 == blob_offset(t, 1));
    assert(blob_part(t, 1) == u16_grid_bytes(t.move_table.eo.deep_view()));
    lemma_chain_step_u16(t, bytes, 1, at1, t.move_table.eo.deep_view(), rg1);
}

proof fn lemma_blob_forces_2(
    t: DataTable,
    bytes: Seq<u8>,
    at0: int,
    rg0: Option<(Vec<Vec<u16>>, usize)>,
    at1: int,
    rg1: Option<(Vec<Vec<u16>>, usize)>,
    at2: int,
    rg2: Option<(Vec<Vec<u16>>, usize)>,
)
    requires
        t.move_table.wf_dims(),
        t.pruning_table.wf(),
        blob_prefix(t, bytes),
        u16_decode_inverts(bytes, at0, rg0),
        rg0 matches Some(p) ==> at1 == at0 + p.1,
        u16_decode_inverts(bytes, at1, rg1),
        rg1 matches Some(p) ==> at2 == at1 + p.1,
        u16_decode_inverts(bytes, at2, rg2),
        at0 == 0,
    ensures
        rg0 matches Some(p) && p.0.deep_view() == t.move_table.co.deep_view() && p.1 as int == blob_part(t, 0).len(),
        rg1 matches Some(p) && p.0.deep_view() == t.move_table.eo.deep_view() && p.1 as int == blob_part(t, 1).len(),
        rg2 matches Some(p) && p.0.deep_view() == t.move_table.e_combo.deep_view() && p.1 as int == blob_part(t, 2).len(),
        (rg2 matches Some(p) ==> at2 + p.1 == blob_offset(t, 3)),
{
    lemma_table_dims(t);
    assert(blob_offset(t, 0) == 0);
    assert(blob_part(t, 0) == u16_grid_bytes(t.move_table.co.deep_view()));
    lemma_chain_step_u16(t, bytes, 0, at0, t.move_table.co.deep_view(), rg0);
    assert(at1 == blob_offset(t, 1));
    assert(blob_part(t, 1) == u16_grid_bytes(t.move_table.eo.deep_view()));
    lemma_chain_step_u16(t, bytes, 1, at1, t.move_table.eo.deep_view(), rg1);
    assert(at2 == blob_offset(t, 2));
    assert(blob_part(t, 2) == u16_grid_bytes(t.move_table.e_combo.deep_view()));
    lemma_chain_step_u16(t, bytes, 2, at2, t.move_table.e_combo.deep_view(), rg2);
}

proof fn lemma_blob_forces_3(
    t: DataTable,
    bytes: Seq<u8>,
    at0: int,
    rg0: Option<(Vec<Vec<u16>>, usize)>,
    at1: int,
    rg1: Option<(Vec<Vec<u16>>, usize)>,
    at2: int,
    rg2: Option<(Vec<Vec<u16>>, usize)>,
    at3: int,
    rg3: Option<(Vec<Vec<u16>>, usize)>,
)
    requires
        t.move_table.wf_dims(),
        t.pruning_table.wf(),
        blob_prefix(t, bytes),
        u16_decode_inverts(bytes, at0, rg0),
        rg0 matches Some(p) ==> at1 == at0 + p.1,
        u16_decode_inverts(bytes, at1, rg1),
        rg1 matches Some(p) ==> at2 == at1 + p.1,
        u16_decode_inverts(bytes, at2, rg2),
        rg2 matches Some(p) ==> at3 == at2 + p.1,
        u16_decode_inverts(bytes, at3, rg3),
        at0 == 0,
    ensures
        rg0 matches Some(p) && p.0.deep_view() == t.move_table.co.deep_view() && p.1 as int == blob_part(t, 0).len(),
        rg1 matches Some(p) && p.0.deep_view() == t.move_table.eo.deep_view() && p.1 as int == blob_part(t, 1).len(),
        rg2 matches Some(p) && p.0.deep_view() == t.move_table.e_combo.deep_view() && p.1 as int == blob_part(t, 2).len(),
        rg3 matches Some(p) && p.0.deep_view() == t.move_table.cp.deep_view() && p.1 as int == blob_part(t, 3).len(),
        (rg3 matches Some(p) ==> at3 + p.1 == blob_offset(t, 4)),
{
    lemma_table_dims(t);
    assert(blob_offset(t, 0) == 0);
    assert(blob_part(t, 0) == u16_grid_bytes(t.move_table.co.deep_view()));
    lemma_chain_step_u16(t, bytes, 0, at0, t.move_table.co.deep_view(), rg0);
    assert(at1 == blob_offset(t, 1));
    assert(blob_part(t, 1) == u16_grid_bytes(t.move_table.eo.deep_view()));
    lemma_chain_step_u16(t, bytes, 1, at1, t.move_table.eo.deep_view(), rg1);
    assert(at2 == blob_offset(t, 2));
    assert(blob_part(t, 2) == u16_grid_bytes(t.move_table.e_combo.deep_view()));
    lemma_chain_step_u16(t, bytes, 2, at2, t.move_table.e_combo.deep_view(), rg2);
    assert(at3 == blob_offset(t, 3));
    assert(blob_part(t, 3) == u16_grid_bytes(t.move_table.cp.deep_view()));
    lemma_chain_step_u16(t, bytes, 3, at3, t.move_table.cp.deep_view(), rg3);
}

proof fn lemma_blob_forces_4(
    t: DataTable,
    bytes: Seq<u8>,
    at0: int,
    rg0: Option<(Vec<Vec<u16>>, usize)>,
    at1: int,
    rg1: Option<(Vec<Vec<u16>>, usize)>,
    at2: int,
    rg2: Option<(Vec<Vec<u16>>, usize)>,
    at3: int,
    rg3: Option<(Vec<Vec<u16>>, usize)>,
    at4: int,
    rg4: Option<(Vec<Vec<u16>>, usize)>,
)
    requires
        t.move_table.wf_dims(),
        t.pruning_table.wf(),
        blob_prefix(t, bytes),
        u16_decode_inverts(bytes, at0, rg0),
        rg0 matches Some(p) ==> at1 == at0 + p.1,
        u16_decode_inverts(bytes, at1, rg1),
        rg1 matches Some(p) ==> at2 == at1 + p.1,
        u16_decode_inverts(bytes, at2, rg2),
        rg2 matches Some(p) ==> at3 == at2 + p.1,
        u16_decode_inverts(bytes, at3, rg3),
        rg3 matches Some(p) ==> at4 == at3 + p.1,
        u16_decode_inverts(bytes, at4, rg4),
        at0 == 0,
    ensures
        rg0 matches Some(p) && p.0.deep_view() == t.move_table.co.deep_view() && p.1 as int == blob_part(t, 0).len(),
        rg1 matches Some(p) && p.0.deep_view() == t.move_table.eo.deep_view() && p.1 as int == blob_part(t, 1).len(),
        rg2 matches Some(p) && p.0.deep_view() == t.move_table.e_combo.deep_view() && p.1 as int == blob_part(t, 2).len(),
        rg3 matches Some(p) && p.0.deep_view() == t.move_table.cp.deep_view() && p.1 as int == blob_part(t, 3).len(),
        rg4 matches Some(p) && p.0.deep_view() == t.move_table.ep.deep_view() && p.1 as int == blob_part(t, 4).len(),
        (rg4 matches Some(p) ==> at4 + p.1 == blob_offset(t, 5)),
{
    lemma_table_dims(t);
    assert(blob_offset(t, 0) == 0);
    assert(blob_part(t, 0) == u16_grid_bytes(t.move_table.co.deep_view()));
    lemma_chain_step_u16(t, bytes, 0, at0, t.move_table.co.deep_view(), rg0);
    assert(at1 == blob_offset(t, 1));
    assert(blob_part(t, 1) == u16_grid_bytes(t.move_table.eo.deep_view()));
    lemma_chain_step_u16(t, bytes, 1, at1, t.move_table.eo.deep_view(), rg1);
    assert(at2 == blob_offset(t, 2));
    assert(blob_part(t, 2) == u16_grid_bytes(t.move_table.e_combo.deep_view()));
    lemma_chain_step_u16(t, bytes, 2, at2, t.move_table.e_combo.deep_view(), rg2);
    assert(at3 == blob_offset(t, 3));
    assert(blob_part(t, 3) == u16_grid_bytes(t.move_table.cp.deep_view()));
    lemma_chain_step_u16(t, bytes, 3, at3, t.move_table.cp.deep_view(), rg3);
    assert(at4 == blob_offset(t, 4));
    assert(blob_part(t, 4) == u16_grid_bytes(t.move_table.ep.deep_view()));
    lemma_chain_step_u16(t, bytes, 4, at4, t.move_table.ep.deep_view(), rg4);
}

proof fn lemma_blob_forces_5(
    t: DataTable,
    bytes: Seq<u8>,
    at0: int,
    rg0: Option<(Vec<Vec<u16>>, usize)>,
    at1: int,
    rg1: Option<(Vec<Vec<u16>>, usize)>,
    at2: int,
    rg2: Option<(Vec<Vec<u16>>, usize)>,
    at3: int,
    rg3: Option<(Vec<Vec<u16>>, usize)>,
    at4: int,
    rg4: Option<(Vec<Vec<u16>>, usize)>,
    at5: int,
    rg5: Option<(Vec<Vec<u16>>, usize)>,
)
    requires
        t.move_table.wf_dims(),
        t.pruning_table.wf(),
        blob_prefix(t, bytes),
        u16_decode_inverts(bytes, at0, rg0),
        rg0 matches Some(p) ==> at1 == at0 + p.1,
        u16_decode_inverts(bytes, at1, rg1),
        rg1 matches Some(p) ==> at2 == at1 + p.1,
        u16_decode_inverts(bytes, at2, rg2),
        rg2 matches Some(p) ==> at3 == at2 + p.1,
        u16_decode_inverts(bytes, at3, rg3),
        rg3 matches Some(p) ==> at4 == at3 + p.1,
        u16_decode_inverts(bytes, at4, rg4),
        rg4 matches Some(p) ==> at5 == at4 + p.1,
        u16_decode_inverts(bytes, at5, rg5),
        at0 == 0,
    ensures
        rg0 matches Some(p) && p.0.deep_view() == t.move_table.co.deep_view() && p.1 as int == blob_part(t, 0).len(),
        rg1 matches Some(p) && p.0.deep_view() == t.move_table.eo.deep_view() && p.1 as int == blob_part(t, 1).len(),
        rg2 matches Some(p) && p.0.deep_view() == t.move_table.e_combo.deep_view() && p.1 as int == blob_part(t, 2).len(),
        rg3 matches Some(p) && p.0.deep_view() == t.move_table.cp.deep_view() && p.1 as int == blob_part(t, 3).len(),
        rg4 matches Some(p) && p.0.deep_view() == t.move_table.ep.deep_view() && p.1 as int == blob_part(t, 4).len(),
        rg5 matches Some(p) && p.0.deep_view() == t.move_table.e_ep.deep_view() && p.1 as int == blob_part(t, 5).len(),
        (rg5 matches Some(p) ==> at5 + p.1 == blob_offset(t, 6)),
{
    lemma_table_dims(t);
    assert(blob_offset(t, 0) == 0);
    assert(blob_part(t, 0) == u16_grid_bytes(t.move_table.co.deep_view()));
    lemma_chain_step_u16(t, bytes, 0, at0, t.move_table.co.deep_view(), rg0);
    assert(at1 == blob_offset(t, 1));
    assert(blob_part(t, 1) == u16_grid_bytes(t.move_table.eo.deep_view()));
    lemma_chain_step_u16(t, bytes, 1, at1, t.move_table.eo.deep_view(), rg1);
    assert(at2 == blob_offset(t, 2));
    assert(blob_part(t, 2) == u16_grid_bytes(t.move_table.e_combo.deep_view()));
    lemma_chain_step_u16(t, bytes, 2, at2, t.move_table.e_combo.deep_view(), rg2);
    assert(at3 == blob_offset(t, 3));
    assert(blob_part(t, 3) == u16_grid_bytes(t.move_table.cp.deep_view()));
    lemma_chain_step_u16(t, bytes, 3, at3, t.move_table.cp.deep_view(), rg3);
    assert(at4 == blob_offset(t, 4));
    assert(blob_part(t, 4) == u16_grid_bytes(t.move_table.ep.deep_view()));
    lemma_chain_step_u16(t, bytes, 4, at4, t.move_table.ep.deep_view(), rg4);
    assert(at5 == blob_offset(t, 5));
    assert(blob_part(t, 5) == u16_grid_bytes(t.move_table.e_ep.deep_view()));
    lemma_chain_step_u16(t, bytes, 5, at5, t.move_table.e_ep.deep_view(), rg5);
}

proof fn lemma_blob_forces_6(
    t: DataTable,
    bytes: Seq<u8>,
    at0: int,
    rg0: Option<(Vec<Vec<u16>>, usize)>,
    at1: int,
    rg1: Option<(Vec<Vec<u16>>, usize)>,
    at2: int,
    rg2: Option<(Vec<Vec<u16>>, usize)>,
    at3: int,
    rg3: Option<(Vec<Vec<u16>>, usize)>,
    at4: int,
    rg4: Option<(Vec<Vec<u16>>, usize)>,
    at5: int,
    rg5: Option<(Vec<Vec<u16>>, usize)>,
    at6: int,
    rg6: Option<(Vec<Vec<u8>>, usize)>,
)
    requires
        t.move_table.wf_dims(),
        t.pruning_table.wf(),
        blob_prefix(t, bytes),
        u16_decode_inverts(bytes, at0, rg0),
        rg0 matches Some(p) ==> at1 == at0 + p.1,
        u16_decode_inverts(bytes, at1, rg1),
        rg1 matches Some(p) ==> at2 == at1 + p.1,
        u16_decode_inverts(bytes, at2, rg2),
        rg2 matches Some(p) ==> at3 == at2 + p.1,
        u16_decode_inverts(bytes, at3, rg3),
        rg3 matches Some(p) ==> at4 == at3 + p.1,
        u16_decode_inverts(bytes, at4, rg4),
        rg4 matches Some(p) ==> at5 == at4 + p.1,
        u16_decode_inverts(bytes, at5, rg5),
        rg5 matches Some(p) ==> at6 == at5 + p.1,
        u8_decode_inverts(bytes, at6, rg6),
        at0 == 0,
    ensures
        rg0 matches Some(p) && p.0.deep_view() == t.move_table.co.deep_view() && p.1 as int == blob_part(t, 0).len(),
        rg1 matches Some(p) && p.0.deep_view() == t.move_table.eo.deep_view() && p.1 as int == blob_part(t, 1).len(),
        rg2 matches Some(p) && p.0.deep_view() == t.move_table.e_combo.deep_view() && p.1 as int == blob_part(t, 2).len(),
        rg3 matches Some(p) && p.0.deep_view() == t.move_table.cp.deep_view() && p.1 as int == blob_part(t, 3).len(),
        rg4 matches Some(p) && p.0.deep_view() == t.move_table.ep.deep_view() && p.1 as int == blob_part(t, 4).len(),
        rg5 matches Some(p) && p.0.deep_view() == t.move_table.e_ep.deep_view() && p.1 as int == blob_part(t, 5).len(),
        rg6 matches Some(p) && p.0.deep_view() == t.pruning_table.co_e.deep_view() && p.1 as int == blob_part(t, 6).len(),
        (rg6 matches Some(p) ==> at6 + p.1 == blob_offset(t, 7)),
{
    lemma_table_dims(t);
    assert(blob_offset(t, 0) == 0);
    assert(blob_part(t, 0) == u16_grid_bytes(t.move_table.co.deep_view()));
    lemma_chain_step_u16(t, bytes, 0, at0, t.move_table.co.deep_view(), rg0);
    assert(at1 == blob_offset(t, 1));
    assert(blob_part(t, 1) == u16_grid_bytes(t.move_table.eo.deep_view()));
    lemma_chain_step_u16(t, bytes, 1, at1, t.move_table.eo.deep_view(), rg1);
    assert(at2 == blob_offset(t, 2));
    assert(blob_part(t, 2) == u16_grid_bytes(t.move_table.e_combo.deep_view()));
    lemma_chain_step_u16(t, bytes, 2, at2, t.move_table.e_combo.deep_view(), rg2);
    assert(at3 == blob_offset(t, 3));
    assert(blob_part(t, 3) == u16_grid_bytes(t.move_table.cp.deep_view()));
    lemma_chain_step_u16(t, bytes, 3, at3, t.move_table.cp.deep_view(), rg3);
    assert(at4 == blob_offset(t, 4));
    assert(blob_part(t, 4) == u16_grid_bytes(t.move_table.ep.deep_view()));
    lemma_chain_step_u16(t, bytes, 4, at4, t.move_table.ep.deep_view(), rg4);
    assert(at5 == blob_offset(t, 5));
    assert(blob_part(t, 5) == u16_grid_bytes(t.move_table.e_ep.deep_view()));
    lemma_chain_step_u16(t, bytes, 5, at5, t.move_table.e_ep.deep_view(), rg5);
    assert(at6 == blob_offset(t, 6));
    assert(blob_part(t, 6) == u8_grid_bytes(t.pruning_table.co_e.deep_view()));
    lemma_chain_step_u8(t, bytes, 6, at6, t.pruning_table.co_e.deep_view(), rg6);
}

proof fn lemma_blob_forces_7(
    t: DataTable,
    bytes: Seq<u8>,
    at0: int,
    rg0: Option<(Vec<Vec<u16>>, usize)>,
    at1: int,
    rg1: Option<(Vec<Vec<u16>>, usize)>,
    at2: int,
    rg2: Option<(Vec<Vec<u16>>, usize)>,
    at3: int,
    rg3: Option<(Vec<Vec<u16>>, usize)>,
    at4: int,
    rg4: Option<(Vec<Vec<u16>>, usize)>,
    at5: int,
    rg5: Option<(Vec<Vec<u16>>, usize)>,
    at6: int,
    rg6: Option<(Vec<Vec<u8>>, usize)>,
    at7: int,
    rg7: Option<(Vec<Vec<u8>>, usize)>,
)
    requires
        t.move_table.wf_dims(),
        t.pruning_table.wf(),
        blob_prefix(t, bytes),
        u16_decode_inverts(bytes, at0, rg0),
        rg0 matches Some(p) ==> at1 == at0 + p.1,
        u16_decode_inverts(bytes, at1, rg1),
        rg1 matches Some(p) ==> at2 == at1 + p.1,
        u16_decode_inverts(bytes, at2, rg2),
        rg2 matches Some(p) ==> at3 == at2 + p.1,
        u16_decode_inverts(bytes, at3, rg3),
        rg3 matches Some(p) ==> at4 == at3 + p.1,
        u16_decode_inverts(bytes, at4, rg4),
        rg4 matches Some(p) ==> at5 == at4 + p.1,
        u16_decode_inverts(bytes, at5, rg5),
        rg5 matches Some(p) ==> at6 == at5 + p.1,
        u8_decode_inverts(bytes, at6, rg6),
        rg6 matches Some(p) ==> at7 == at6 + p.1,
        u8_decode_inverts(bytes, at7, rg7),
        at0 == 0,
    ensures
        rg0 matches Some(p) && p.0.deep_view() == t.move_table.co.deep_view() && p.1 as int == blob_part(t, 0).len(),
        rg1 matches Some(p) && p.0.deep_view() == t.move_table.eo.deep_view() && p.1 as int == blob_part(t, 1).len(),
        rg2 matches Some(p) && p.0.deep_view() == t.move_table.e_combo.deep_view() && p.1 as int == blob_part(t, 2).len(),
        rg3 matches Some(p) && p.0.deep_view() == t.move_table.cp.deep_view() && p.1 as int == blob_part(t, 3).len(),
        rg4 matches Some(p) && p.0.deep_view() == t.move_table.ep.deep_view() && p.1 as int == blob_part(t, 4).len(),
        rg5 matches Some(p) && p.0.deep_view() == t.move_table.e_ep.deep_view() && p.1 as int == blob_part(t, 5).len(),
        rg6 matches Some(p) && p.0.deep_view() == t.pruning_table.co_e.deep_view() && p.1 as int == blob_part(t, 6).len(),
        rg7 matches Some(p) && p.0.deep_view() == t.pruning_table.eo_e.deep_view() && p.1 as int == blob_part(t, 7).len(),
        (rg7 matches Some(p) ==> at7 + p.1 == blob_offset(t, 8)),
{
    lemma_table_dims(t);
    assert(blob_offset(t, 0) == 0);
    assert(blob_part(t, 0) == u16_grid_bytes(t.move_table.co.deep_view()));
    lemma_chain_step_u16(t, bytes, 0, at0, t.move_table.co.deep_view(), rg0);
    assert(at1 == blob_offset(t, 1));
    assert(blob_part(t, 1) == u16_grid_bytes(t.move_table.eo.deep_view()));
    lemma_chain_step_u16(t, bytes, 1, at1, t.move_table.eo.deep_view(), rg1);
    assert(at2 == blob_offset(t, 2));
    assert(blob_part(t, 2) == u16_grid_bytes(t.move_table.e_combo.deep_view()));
    lemma_chain_step_u16(t, bytes, 2, at2, t.move_table.e_combo.deep_view(), rg2);
    assert(at3 == blob_offset(t, 3));
    assert(blob_part(t, 3) == u16_grid_bytes(t.move_table.cp.deep_view()));
    lemma_chain_step_u16(t, bytes, 3, at3, t.move_table.cp.deep_view(), rg3);
    assert(at4 == blob_offset(t, 4));
    assert(blob_part(t, 4) == u16_grid_bytes(t.move_table.ep.deep_view()));
    lemma_chain_step_u16(t, bytes, 4, at4, t.move_table.ep.deep_view(), rg4);
    assert(at5 == blob_offset(t, 5));
    assert(blob_part(t, 5) == u16_grid_bytes(t.move_table.e_ep.deep_view()));
    lemma_chain_step_u16(t, bytes, 5, at5, t.move_table.e_ep.deep_view(), rg5);
    assert(at6 == blob_offset(t, 6));
    assert(blob_part(t, 6) == u8_grid_bytes(t.pruning_table.co_e.deep_view()));
    lemma_chain_step_u8(t, bytes, 6, at6, t.pruning_table.co_e.deep_view(), rg6);
    assert(at7 == blob_offset(t, 7));
    assert(blob_part(t, 7) == u8_grid_bytes(t.pruning_table.eo_e.deep_view()));
    lemma_chain_step_u8(t, bytes, 7, at7, t.pruning_table.eo_e.deep_view(), rg7);
}

proof fn lemma_blob_forces_8(
    t: DataTable,
    bytes: Seq<u8>,
    at0: int,
    rg0: Option<(Vec<Vec<u16>>, usize)>,
    at1: int,
    rg1: Option<(Vec<Vec<u16>>, usize)>,
    at2: int,
    rg2: Option<(Vec<Vec<u16>>, usize)>,
    at3: int,
    rg3: Option<(Vec<Vec<u16>>, usize)>,
    at4: int,
    rg4: Option<(Vec<Vec<u16>>, usize)>,
    at5: int,
    rg5: Option<(Vec<Vec<u16>>, usize)>,
    at6: int,
    rg6: Option<(Vec<Vec<u8>>, usize)>,
    at7: int,
    rg7: Option<(Vec<Vec<u8>>, usize)>,
    at8: int,
    rg8: Option<(Vec<Vec<u8>>, usize)>,
)
    requires
        t.move_table.wf_dims(),
        t.pruning_table.wf(),
        blob_prefix(t, bytes),
        u16_decode_inverts(bytes, at0, rg0),
        rg0 matches Some(p) ==> at1 == at0 + p.1,
        u16_decode_inverts(bytes, at1, rg1),
        rg1 matches Some(p) ==> at2 == at1 + p.1,
        u16_decode_inverts(bytes, at2, rg2),
        rg2 matches Some(p) ==> at3 == at2 + p.1,
        u16_decode_inverts(bytes, at3, rg3),
        rg3 matches Some(p) ==> at4 == at3 + p.1,
        u16_decode_inverts(bytes, at4, rg4),
        rg4 matches Some(p) ==> at5 == at4 + p.1,
        u16_decode_inverts(bytes, at5, rg5),
        rg5 matches Some(p) ==> at6 == at5 + p.1,
        u8_decode_inverts(bytes, at6, rg6),
        rg6 matches Some(p) ==> at7 == at6 + p.1,
        u8_decode_inverts(bytes, at7, rg7),
        rg7 matches Some(p) ==> at8 == at7 + p.1,
        u8_decode_inverts(bytes, at8, rg8),
        at0 == 0,
    ensures
        rg0 matches Some(p) && p.0.deep_view() == t.move_table.co.deep_view() && p.1 as int == blob_part(t, 0).len(),
        rg1 matches Some(p) && p.0.deep_view() == t.move_table.eo.deep_view() && p.1 as int == blob_part(t, 1).len(),
        rg2 matches Some(p) && p.0.deep_view() == t.move_table.e_combo.deep_view() && p.1 as int == blob_part(t, 2).len(),
        rg3 matches Some(p) && p.0.deep_view() == t.move_table.cp.deep_view() && p.1 as int == blob_part(t, 3).len(),
        rg4 matches Some(p) && p.0.deep_view() == t.move_table.ep.deep_view() && p.1 as int == blob_part(t, 4).len(),
        rg5 matches Some(p) && p.0.deep_view() == t.move_table.e_ep.deep_view() && p.1 as int == blob_part(t, 5).len(),
        rg6 matches Some(p) && p.0.deep_view() == t.pruning_table.co_e.deep_view() && p.1 as int == blob_part(t, 6).len(),
        rg7 matches Some(p) && p.0.deep_view() == t.pruning_table.eo_e.deep_view() && p.1 as int == blob_part(t, 7).len(),
        rg8 matches Some(p) && p.0.deep_view() == t.pruning_table.cp_e.deep_view() && p.1 as int == blob_part(t, 8).len(),
        (rg8 matches Some(p) ==> at8 + p.1 == blob_offset(t, 9)),
{
    lemma_table_dims(t);
    assert(blob_offset(t, 0) == 0);
    assert(blob_part(t, 0) == u16_grid_bytes(t.move_table.co.deep_view()));
    lemma_chain_step_u16(t, bytes, 0, at0, t.move_table.co.deep_view(), rg0);
    assert(at1 == blob_offset(t, 1));
    assert(blob_part(t, 1) == u16_grid_bytes(t.move_table.eo.deep_view()));
    lemma_chain_step_u16(t, bytes, 1, at1, t.move_table.eo.deep_view(), rg1);
    assert(at2 == blob_offset(t, 2));
    assert(blob_part(t, 2) == u16_grid_bytes(t.move_table.e_combo.deep_view()));
    lemma_chain_step_u16(t, bytes, 2, at2, t.move_table.e_combo.deep_view(), rg2);
    assert(at3 == blob_offset(t, 3));
    assert(blob_part(t, 3) == u16_grid_bytes(t.move_table.cp.deep_view()));
    lemma_chain_step_u16(t, bytes, 3, at3, t.move_table.cp.deep_view(), rg3);
    assert(at4 == blob_offset(t, 4));
    assert(blob_part(t, 4) == u16_grid_bytes(t.move_table.ep.deep_view()));
    lemma_chain_step_u16(t, bytes, 4, at4, t.move_table.ep.deep_view(), rg4);
    assert(at5 == blob_offset(t, 5));
    assert(blob_part(t, 5) == u16_grid_bytes(t.move_table.e_ep.deep_view()));
    lemma_chain_step_u16(t, bytes, 5, at5, t.move_table.e_ep.deep_view(), rg5);
    assert(at6 == blob_offset(t, 6));
    assert(blob_part(t, 6) == u8_grid_bytes(t.pruning_table.co_e.deep_view()));
    lemma_chain_step_u8(t, bytes, 6, at6, t.pruning_table.co_e.deep_view(), rg6);
    assert(at7 == blob_offset(t, 7));
    assert(blob_part(t, 7) == u8_grid_bytes(t.pruning_table.eo_e.deep_view()));
    lemma_chain_step_u8(t, bytes, 7, at7, t.pruning_table.eo_e.deep_view(), rg7);
    assert(at8 == blob_offset(t, 8));
    assert(blob_part(t, 8) == u8_grid_bytes(t.pruning_table.cp_e.deep_view()));
    lemma_chain_step_u8(t, bytes, 8, at8, t.pruning_table.cp_e.deep_view(), rg8);
}

proof fn lemma_blob_forces_9(
    t: DataTable,
    bytes: Seq<u8>,
    at0: int,
    rg0: Option<(Vec<Vec<u16>>, usize)>,
    at1: int,
    rg1: Option<(Vec<Vec<u16>>, usize)>,
    at2: int,
    rg2: Option<(Vec<Vec<u16>>, usize)>,
    at3: int,
    rg3: Option<(Vec<Vec<u16>>, usize)>,
    at4: int,
    rg4: Option<(Vec<Vec<u16>>, usize)>,
    at5: int,
    rg5: Option<(Vec<Vec<u16>>, usize)>,
    at6: int,
    rg6: Option<(Vec<Vec<u8>>, usize)>,
    at7: int,
    rg7: Option<(Vec<Vec<u8>>, usize)>,
    at8: int,
    rg8: Option<(Vec<Vec<u8>>, usize)>,
    at9: int,
    rg9: Option<(Vec<Vec<u8>>, usize)>,
)
    requires
        t.move_table.wf_dims(),
        t.pruning_table.wf(),
        blob_prefix(t, bytes),
        u16_decode_inverts(bytes, at0, rg0),
        rg0 matches Some(p) ==> at1 == at0 + p.1,
        u16_decode_inverts(bytes, at1, rg1),
        rg1 matches Some(p) ==> at2 == at1 + p.1,
        u16_decode_inverts(bytes, at2, rg2),
        rg2 matches Some(p) ==> at3 == at2 + p.1,
        u16_decode_inverts(bytes, at3, rg3),
        rg3 matches Some(p) ==> at4 == at3 + p.1,
        u16_decode_inverts(bytes, at4, rg4),
        rg4 matches Some(p) ==> at5 == at4 + p.1,
        u16_decode_inverts(bytes, at5, rg5),
        rg5 matches Some(p) ==> at6 == at5 + p.1,
        u8_decode_inverts(bytes, at6, rg6),
        rg6 matches Some(p) ==> at7 == at6 + p.1,
        u8_decode_inverts(bytes, at7, rg7),
        rg7 matches Some(p) ==> at8 == at7 + p.1,
        u8_decode_inverts(bytes, at8, rg8),
        rg8 matches Some(p) ==> at9 == at8 + p.1,
        u8_decode_inverts(bytes, at9, rg9),
        at0 == 0,
    ensures
        rg0 matches Some(p) && p.0.deep_view() == t.move_table.co.deep_view() && p.1 as int == blob_part(t, 0).len(),
        rg1 matches Some(p) && p.0.deep_view() == t.move_table.eo.deep_view() && p.1 as int == blob_part(t, 1).len(),
        rg2 matches Some(p) && p.0.deep_view() == t.move_table.e_combo.deep_view() && p.1 as int == blob_part(t, 2).len(),
        rg3 matches Some(p) && p.0.deep_view() == t.move_table.cp.deep_view() && p.1 as int == blob_part(t, 3).len(),
        rg4 matches Some(p) && p.0.deep_view() == t.move_table.ep.deep_view() && p.1 as int == blob_part(t, 4).len(),
        rg5 matches Some(p) && p.0.deep_view() == t.move_table.e_ep.deep_view() && p.1 as int == blob_part(t, 5).len(),
        rg6 matches Some(p) && p.0.deep_view() == t.pruning_table.co_e.deep_view() && p.1 as int == blob_part(t, 6).len(),
        rg7 matches Some(p) && p.0.deep_view() == t.pruning_table.eo_e.deep_view() && p.1 as int == blob_part(t, 7).len(),
        rg8 matches Some(p) && p.0.deep_view() == t.pruning_table.cp_e.deep_view() && p.1 as int == blob_part(t, 8).len(),
        rg9 matches Some(p) && p.0.deep_view() == t.pruning_table.ep_e.deep_view() && p.1 as int == blob_part(t, 9).len(),
        (rg9 matches Some(p) ==> at9 + p.1 == blob_offset(t, 10)),
{
    lemma_table_dims(t);
    assert(blob_offset(t, 0) == 0);
    assert(blob_part(t, 0) == u16_grid_bytes(t.move_table.co.deep_view()));
    lemma_chain_step_u16(t, bytes, 0, at0, t.move_table.co.deep_view(), rg0);
    assert(at1 == blob_offset(t, 1));
    assert(blob_part(t, 1) == u16_grid_bytes(t.move_table.eo.deep_view()));
    lemma_chain_step_u16(t, bytes, 1, at1, t.move_table.eo.deep_view(), rg1);
    assert(at2 == blob_offset(t, 2));
    assert(blob_part(t, 2) == u16_grid_bytes(t.move_table.e_combo.deep_view()));
    lemma_chain_step_u16(t, bytes, 2, at2, t.move_table.e_combo.deep_view(), rg2);
    assert(at3 == blob_offset(t, 3));
    assert(blob_part(t, 3) == u16_grid_bytes(t.move_table.cp.deep_view()));
    lemma_chain_step_u16(t, bytes, 3, at3, t.move_table.cp.deep_view(), rg3);
    assert(at4 == blob_offset(t, 4));
    assert(blob_part(t, 4) == u16_grid_bytes(t.move_table.ep.deep_view()));
    lemma_chain_step_u16(t, bytes, 4, at4, t.move_table.ep.deep_view(), rg4);
    assert(at5 == blob_offset(t, 5));
    assert(blob_part(t, 5) == u16_grid_bytes(t.move_table.e_ep.deep_view()));
    lemma_chain_step_u16(t, bytes, 5, at5, t.move_table.e_ep.deep_view(), rg5);
    assert(at6 == blob_offset(t, 6));
    assert(blob_part(t, 6) == u8_grid_bytes(t.pruning_table.co_e.deep_view()));
    lemma_chain_step_u8(t, bytes, 6, at6, t.pruning_table.co_e.deep_view(), rg6);
    assert(at7 == blob_offset(t, 7));
    assert(blob_part(t, 7) == u8_grid_bytes(t.pruning_table.eo_e.deep_view()));
    lemma_chain_step_u8(t, bytes, 7, at7, t.pruning_table.eo_e.deep_view(), rg7);
    assert(at8 == blob_offset(t, 8));
    assert(blob_part(t, 8) == u8_grid_bytes(t.pruning_table.cp_e.deep_view()));
    lemma_chain_step_u8(t, bytes, 8, at8, t.pruning_table.cp_e.deep_view(), rg8);
    assert(at9 == blob_offset(t, 9));
    assert(blob_part(t, 9) == u8_grid_bytes(t.pruning_table.ep_e.deep_view()));
    lemma_chain_step_u8(t, bytes, 9, at9, t.pruning_table.ep_e.deep_view(), rg9);
}

/// Grids whose deep views match a well-shaped table's have its shape.
proof fn lemma_views_forced(
    t: DataTable,
    v0: Seq<Vec<u16>>,
    dv0: Seq<Seq<u16>>,
    v1: Seq<Vec<u16>>,
    dv1: Seq<Seq<u16>>,
    v2: Seq<Vec<u16>>,
    dv2: Seq<Seq<u16>>,
    v3: Seq<Vec<u16>>,
    dv3: Seq<Seq<u16>>,
    v4: Seq<Vec<u16>>,
    dv4: Seq<Seq<u16>>,
    v5: Seq<Vec<u16>>,
    dv5: Seq<Seq<u16>>,
    v6: Seq<Vec<u8>>,
    dv6: Seq<Seq<u8>>,
    v7: Seq<Vec<u8>>,
    dv7: Seq<Seq<u8>>,
    v8: Seq<Vec<u8>>,
    dv8: Seq<Seq<u8>>,
    v9: Seq<Vec<u8>>,
    dv9: Seq<Seq<u8>>,
)
    requires
        t.move_table.wf_dims(),
        t.pruning_table.wf(),
        dv0 == t.move_table.co.deep_view(),
        dv0 == Seq::new(v0.len(), |i: int| v0[i].deep_view()),
        dv1 == t.move_table.eo.deep_view(),
        dv1 == Seq::new(v1.len(), |i: int| v1[i].deep_view()),
        dv2 == t.move_table.e_combo.deep_view(),
        dv2 == Seq::new(v2.len(), |i: int| v2[i].deep_view()),
        dv3 == t.move_table.cp.deep_view(),
        dv3 == Seq::new(v3.len(), |i: int| v3[i].deep_view()),
        dv4 == t.move_table.ep.deep_view(),
        dv4 == Seq::new(v4.len(), |i: int| v4[i].deep_view()),
        dv5 == t.move_table.e_ep.deep_view(),
        dv5 == Seq::new(v5.len(), |i: int| v5[i].deep_view()),
        dv6 == t.pruning_table.co_e.deep_view(),
        dv6 == Seq::new(v6.len(), |i: int| v6[i].deep_view()),
        dv7 == t.pruning_table.eo_e.deep_view(),
        dv7 == Seq::new(v7.len(), |i: int| v7[i].deep_view()),
        dv8 == t.pruning_table.cp_e.deep_view(),
        dv8 == Seq::new(v8.len(), |i: int| v8[i].deep_view()),
        dv9 == t.pruning_table.ep_e.deep_view(),
        dv9 == Seq::new(v9.len(), |i: int| v9[i].deep_view()),
    ensures
        v0.len() == 2187 && (forall|i: int| 0 <= i < 2187 ==> (#[trigger] v0[i])@.len() == 18) && (forall|i: int, j: int| 0 <= i < 2187 && 0 <= j < 18 ==> (#[trigger] v0[i]@[j]) < 2187),
        v1.len() == 2048 && (forall|i: int| 0 <= i < 2048 ==> (#[trigger] v1[i])@.len() == 18) && (forall|i: int, j: int| 0 <= i < 2048 && 0 <= j < 18 ==> (#[trigger] v1[i]@[j]) < 2048),
        v2.len() == 495 && (forall|i: int| 0 <= i < 495 ==> (#[trigger] v2[i])@.len() == 18) && (forall|i: int, j: int| 0 <= i < 495 && 0 <= j < 18 ==> (#[trigger] v2[i]@[j]) < 495),
        v3.len() == 40320 && (forall|i: int| 0 <= i < 40320 ==> (#[trigger] v3[i])@.len() == 10) && (forall|i: int, j: int| 0 <= i < 40320 && 0 <= j < 10 ==> (#[trigger] v3[i]@[j]) < 40320),
        v4.len() == 40320 && (forall|i: int| 0 <= i < 40320 ==> (#[trigger] v4[i])@.len() == 10) && (forall|i: int, j: int| 0 <= i < 40320 && 0 <= j < 10 ==> (#[trigger] v4[i]@[j]) < 40320),
        v5.len() == 24 && (forall|i: int| 0 <= i < 24 ==> (#[trigger] v5[i])@.len() == 10) && (forall|i: int, j: int| 0 <= i < 24 && 0 <= j < 10 ==> (#[trigger] v5[i]@[j]) < 24),
        v6.len() == 2187 && (forall|i: int| 0 <= i < 2187 ==> (#[trigger] v6[i])@.len() == 495),
        v7.len() == 2048 && (forall|i: int| 0 <= i < 2048 ==> (#[trigger] v7[i])@.len() == 495),
        v8.len() == 40320 && (forall|i: int| 0 <= i < 40320 ==> (#[trigger] v8[i])@.len() == 24),
        v9.len() == 40320 && (forall|i: int| 0 <= i < 40320 ==> (#[trigger] v9[i])@.len() == 24),
{
    lemma_u16_views(v0, t.move_table.co@, dv0, t.move_table.co.deep_view());
    assert forall|i: int, j: int|
        0 <= i < 2187 && 0 <= j < 18 implies (#[trigger] v0[i]@[j]) < 2187 by {
        assert(v0[i]@ == t.move_table.co@[i]@);
        assert(crate::pruning::tv(t.move_table.co@, i, j) < 2187);
    }
    lemma_u16_views(v1, t.move_table.eo@, dv1, t.move_table.eo.deep_view());
    assert forall|i: int, j: int|
        0 <= i < 2048 && 0 <= j < 18 implies (#[trigger] v1[i]@[j]) < 2048 by {
        assert(v1[i]@ == t.move_table.eo@[i]@);
        assert(crate::pruning::tv(t.move_table.eo@, i, j) < 2048);
    }
    lemma_u16_views(v2, t.move_table.e_combo@, dv2, t.move_table.e_combo.deep_view());
    assert forall|i: int, j: int|
        0 <= i < 495 && 0 <= j < 18 implies (#[trigger] v2[i]@[j]) < 495 by {
        assert(v2[i]@ == t.move_table.e_combo@[i]@);
        assert(crate::pruning::tv(t.move_table.e_combo@, i, j) < 495);
    }
    lemma_u16_views(v3, t.move_table.cp@, dv3, t.move_table.cp.deep_view());
    assert forall|i: int, j: int|
        0 <= i < 40320 && 0 <= j < 10 implies (#[trigger] v3[i]@[j]) < 40320 by {
        assert(v3[i]@ == t.move_table.cp@[i]@);
        assert(crate::pruning::tv(t.move_table.cp@, i, j) < 40320);
    }
    lemma_u16_views(v4, t.move_table.ep@, dv4, t.move_table.ep.deep_view());
    assert forall|i: int, j: int|
        0 <= i < 40320 && 0 <= j < 10 implies (#[trigger] v4[i]@[j]) < 40320 by {
        assert(v4[i]@ == t.move_table.ep@[i]@);
        assert(crate::pruning::tv(t.move_table.ep@, i, j) < 40320);
    }
    lemma_u16_views(v5, t.move_table.e_ep@, dv5, t.move_table.e_ep.deep_view());
    assert forall|i: int, j: int|
        0 <= i < 24 && 0 <= j < 10 implies (#[trigger] v5[i]@[j]) < 24 by {
        assert(v5[i]@ == t.move_table.e_ep@[i]@);
        assert(crate::pruning::tv(t.move_table.e_ep@, i, j) < 24);
    }
    lemma_u8_views(v6, t.pruning_table.co_e@, dv6, t.pruning_table.co_e.deep_view());
    lemma_u8_views(v7, t.pruning_table.eo_e@, dv7, t.pruning_table.eo_e.deep_view());
    lemma_u8_views(v8, t.pruning_table.cp_e@, dv8, t.pruning_table.cp_e.deep_view());
    lemma_u8_views(v9, t.pruning_table.ep_e@, dv9, t.pruning_table.ep_e.deep_view());
}

/// The deep views of a well-shaped table's grids have its exact
/// dimensions.
proof fn lemma_table_dims(t: DataTable)
    requires
        t.move_table.wf_dims(),
        t.pruning_table.wf(),
    ensures
        t.move_table.co.deep_view().len() == 2187,
        forall|i: int| 0 <= i < 2187 ==> (#[trigger] t.move_table.co.deep_view()[i]).len() == 18,
        t.move_table.eo.deep_view().len() == 2048,
        forall|i: int| 0 <= i < 2048 ==> (#[trigger] t.move_table.eo.deep_view()[i]).len() == 18,
        t.move_table.e_combo.deep_view().len() == 495,
        forall|i: int| 0 <= i < 495 ==> (#[trigger] t.move_table.e_combo.deep_view()[i]).len() == 18,
        t.move_table.cp.deep_view().len() == 40320,
        forall|i: int| 0 <= i < 40320 ==> (#[trigger] t.move_table.cp.deep_view()[i]).len() == 10,
        t.move_table.ep.deep_view().len() == 40320,
        forall|i: int| 0 <= i < 40320 ==> (#[trigger] t.move_table.ep.deep_view()[i]).len() == 10,
        t.move_table.e_ep.deep_view().len() == 24,
        forall|i: int| 0 <= i < 24 ==> (#[trigger] t.move_table.e_ep.deep_view()[i]).len() == 10,
        t.pruning_table.co_e.deep_view().len() == 2187,
        forall|i: int| 0 <= i < 2187 ==> (#[trigger] t.pruning_table.co_e.deep_view()[i]).len() == 495,
        t.pruning_table.eo_e.deep_view().len() == 2048,
        forall|i: int| 0 <= i < 2048 ==> (#[trigger] t.pruning_table.eo_e.deep_view()[i]).len() == 495,
        t.pruning_table.cp_e.deep_view().len() == 40320,
        forall|i: int| 0 <= i < 40320 ==> (#[trigger] t.pruning_table.cp_e.deep_view()[i]).len() == 24,
        t.pruning_table.ep_e.deep_view().len() == 40320,
        forall|i: int| 0 <= i < 40320 ==> (#[trigger] t.pruning_table.ep_e.deep_view()[i]).len() == 24,
{
    assert(t.move_table.co.deep_view().len() == t.move_table.co@.len());
    assert forall|i: int| 0 <= i < 2187 implies (#[trigger] t.move_table.co.deep_view()[i]).len() == 18 by {
        assert(t.move_table.co.deep_view()[i] == t.move_table.co@[i].deep_view());
        assert(t.move_table.co.deep_view()[i].len() == (t.move_table.co@[i])@.len());
    }
    assert(t.move_table.eo.deep_view().len() == t.move_table.eo@.len());
    assert forall|i: int| 0 <= i < 2048 implies (#[trigger] t.move_table.eo.deep_view()[i]).len() == 18 by {
        assert(t.move_table.eo.deep_view()[i] == t.move_table.eo@[i].deep_view());
        assert(t.move_table.eo.deep_view()[i].len() == (t.move_table.eo@[i])@.len());
    }
    assert(t.move_table.e_combo.deep_view().len() == t.move_table.e_combo@.len());
    assert forall|i: int| 0 <= i < 495 implies (#[trigger] t.move_table.e_combo.deep_view()[i]).len() == 18 by {
        assert(t.move_table.e_combo.deep_view()[i] == t.move_table.e_combo@[i].deep_view());
        assert(t.move_table.e_combo.deep_view()[i].len() == (t.move_table.e_combo@[i])@.len());
    }
    assert(t.move_table.cp.deep_view().len() == t.move_table.cp@.len());
    assert forall|i: int| 0 <= i < 40320 implies (#[trigger] t.move_table.cp.deep_view()[i]).len() == 10 by {
        assert(t.move_table.cp.deep_view()[i] == t.move_table.cp@[i].deep_view());
        assert(t.move_table.cp.deep_view()[i].len() == (t.move_table.cp@[i])@.len());
    }
    assert(t.move_table.ep.deep_view().len() == t.move_table.ep@.len());
    assert forall|i: int| 0 <= i < 40320 implies (#[trigger] t.move_table.ep.deep_view()[i]).len() == 10 by {
        assert(t.move_table.ep.deep_view()[i] == t.move_table.ep@[i].deep_view());
        assert(t.move_table.ep.deep_view()[i].len() == (t.move_table.ep@[i])@.len());
    }
    assert(t.move_table.e_ep.deep_view().len() == t.move_table.e_ep@.len());
    assert forall|i: int| 0 <= i < 24 implies (#[trigger] t.move_table.e_ep.deep_view()[i]).len() == 10 by {
        assert(t.move_table.e_ep.deep_view()[i] == t.move_table.e_ep@[i].deep_view());
        assert(t.move_table.e_ep.deep_view()[i].len() == (t.move_table.e_ep@[i])@.len());
    }
    assert(t.pruning_table.co_e.deep_view().len() == t.pruning_table.co_e@.len());
    assert forall|i: int| 0 <= i < 2187 implies (#[trigger] t.pruning_table.co_e.deep_view()[i]).len() == 495 by {
        assert(t.pruning_table.co_e.deep_view()[i] == t.pruning_table.co_e@[i].deep_view());
        assert(t.pruning_table.co_e.deep_view()[i].len() == (t.pruning_table.co_e@[i])@.len());
    }
    assert(t.pruning_table.eo_e.deep_view().len() == t.pruning_table.eo_e@.len());
    assert forall|i: int| 0 <= i < 2048 implies (#[trigger] t.pruning_table.eo_e.deep_view()[i]).len() == 495 by {
        assert(t.pruning_table.eo_e.deep_view()[i] == t.pruning_table.eo_e@[i].deep_view());
        assert(t.pruning_table.eo_e.deep_view()[i].len() == (t.pruning_table.eo_e@[i])@.len());
    }
    assert(t.pruning_table.cp_e.deep_view().len() == t.pruning_table.cp_e@.len());
    assert forall|i: int| 0 <= i < 40320 implies (#[trigger] t.pruning_table.cp_e.deep_view()[i]).len() == 24 by {
        assert(t.pruning_table.cp_e.deep_view()[i] == t.pruning_table.cp_e@[i].deep_view());
        assert(t.pruning_table.cp_e.deep_view()[i].len() == (t.pruning_table.cp_e@[i])@.len());
    }
    assert(t.pruning_table.ep_e.deep_view().len() == t.pruning_table.ep_e@.len());
    assert forall|i: int| 0 <= i < 40320 implies (#[trigger] t.pruning_table.ep_e.deep_view()[i]).len() == 24 by {
        assert(t.pruning_table.ep_e.deep_view()[i] == t.pruning_table.ep_e@[i].deep_view());
        assert(t.pruning_table.ep_e.deep_view()[i].len() == (t.pruning_table.ep_e@[i])@.len());
    }
}

/// One step of reading a blob back: if the call was made at the start of
/// the `k`-th segment and that segment encodes a table-shaped grid, it
/// succeeded on exactly that segment.
proof fn lemma_chain_step_u16(
    t: DataTable,
    bytes: Seq<u8>,
    k: int,
    from: int,
    g: Seq<Seq<u16>>,
    r: Option<(Vec<Vec<u16>>, usize)>,
)
    requires
        blob_prefix(t, bytes),
        0 <= k < 10,
        from == blob_offset(t, k),
        blob_part(t, k) == u16_grid_bytes(g),
        g.len() <= 40320,
        forall|i: int| 0 <= i < g.len() ==> (#[trigger] g[i]).len() <= 18,
        u16_decode_inverts(bytes, from, r),
    ensures
        r matches Some(p) && p.0.deep_view() == g && p.1 as int == blob_part(t, k).len(),
{
    lemma_blob_segments(t, bytes);
    assert(bytes.subrange(blob_offset(t, k), blob_offset(t, k + 1)) == blob_part(t, k));
    assert(blob_offset(t, k + 1) == from + u16_grid_bytes(g).len());
    assert(from + u16_grid_bytes(g).len() <= bytes.len());
}

/// One step of reading a blob back: if the call was made at the start of
/// the `k`-th segment and that segment encodes a table-shaped grid, it
/// succeeded on exactly that segment.
proof fn lemma_chain_step_u8(
    t: DataTable,
    bytes: Seq<u8>,
    k: int,
    from: int,
    g: Seq<Seq<u8>>,
    r: Option<(Vec<Vec<u8>>, usize)>,
)
    requires
        blob_prefix(t, bytes),
        0 <= k < 10,
        from == blob_offset(t, k),
        blob_part(t, k) == u8_grid_bytes(g),
        g.len() <= 40320,
        forall|i: int| 0 <= i < g.len() ==> (#[trigger] g[i]).len() <= 495,
        u8_decode_inverts(bytes, from, r),
    ensures
        r matches Some(p) && p.0.deep_view() == g && p.1 as int == blob_part(t, k).len(),
{
    lemma_blob_segments(t, bytes);
    assert(bytes.subrange(blob_offset(t, k), blob_offset(t, k + 1)) == blob_part(t, k));
    assert(blob_offset(t, k + 1) == from + u8_grid_bytes(g).len());
    assert(from + u8_grid_bytes(g).len() <= bytes.len());
}

/// Equal deep views mean equal row views.
proof fn lemma_u16_views(a: Seq<Vec<u16>>, b: Seq<Vec<u16>>, da: Seq<Seq<u16>>, db: Seq<Seq<u16>>)
    requires
        da == db,
        da == Seq::new(a.len(), |i: int| a[i].deep_view()),
        db == Seq::new(b.len(), |i: int| b[i].deep_view()),
    ensures
        a.len() == b.len(),
        forall|i: int| 0 <= i < a.len() ==> (#[trigger] a[i])@ == b[i]@,
{
    assert(da.len() == a.len());
    assert(db.len() == b.len());
    assert forall|i: int| 0 <= i < a.len() implies (#[trigger] a[i])@ == b[i]@ by {
        assert(da[i] == a[i].deep_view());
        assert(db[i] == b[i].deep_view());
        assert(a[i].deep_view() =~= a[i]@);
        assert(b[i].deep_view() =~= b[i]@);
    }
}

/// Equal deep views mean equal row views.
proof fn lemma_u8_views(a: Seq<Vec<u8>>, b: Seq<Vec<u8>>, da: Seq<Seq<u8>>, db: Seq<Seq<u8>>)
    requires
        da == db,
        da == Seq::new(a.len(), |i: int| a[i].deep_view()),
        db == Seq::new(b.len(), |i: int| b[i].deep_view()),
    ensures
        a.len() == b.len(),
        forall|i: int| 0 <= i < a.len() ==> (#[trigger] a[i])@ == b[i]@,
{
    assert(da.len() == a.len());
    assert(db.len() == b.len());
    assert forall|i: int| 0 <= i < a.len() implies (#[trigger] a[i])@ == b[i]@ by {
        assert(da[i] == a[i].deep_view());
        assert(db[i] == b[i].deep_view());
        assert(a[i].deep_view() =~= a[i]@);
        assert(b[i].deep_view() =~= b[i]@);
    }
}

} // verus!
