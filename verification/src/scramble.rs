//! Scramble strings: parsing whitespace-separated Singmaster move tokens,
//! validating them, and deriving a scramble from a state by inverting a
//! solution.

use vstd::prelude::*;

use crate::cubie::{solvable, CubieCube};
use crate::error::Error;
use crate::moves::Move;
use crate::solver::{solves, Solver};

verus! {

/// Whitespace between tokens.
pub open spec fn is_space(c: char) -> bool {
    c == ' ' || c == '\t' || c == '\n' || c == '\r'
}

/// The quarter turn a face letter names.
pub open spec fn quarter_of(c: char) -> Option<Move> {
    if c == 'U' {
        Some(Move::U)
    } else if c == 'D' {
        Some(Move::D)
    } else if c == 'R' {
        Some(Move::R)
    } else if c == 'L' {
        Some(Move::L)
    } else if c == 'F' {
        Some(Move::F)
    } else if c == 'B' {
        Some(Move::B)
    } else {
        None
    }
}

/// The half turn of a face.
pub open spec fn double_of(m: Move) -> Move {
    match m {
        Move::U => Move::U2,
        Move::D => Move::D2,
        Move::R => Move::R2,
        Move::L => Move::L2,
        Move::F => Move::F2,
        Move::B => Move::B2,
        _ => m,
    }
}

/// Parse a whitespace-separated sequence of move tokens: a face letter,
/// optionally followed by `2` for a half turn or `'` for the inverse. Any
/// other text fails.
pub open spec fn parse_moves(s: Seq<char>) -> Option<Seq<Move>>
    decreases s.len(),
{
    if s.len() == 0 {
        Some(Seq::empty())
    } else if is_space(s[0]) {
        parse_moves(s.drop_first())
    } else if quarter_of(s[0]) is None {
        None
    } else {
        let q = quarter_of(s[0])->0;
        if s.len() == 1 {
            Some(seq![q])
        } else if s[1] == '2' || s[1] == '\'' {
            let m = if s[1] == '2' {
                double_of(q)
            } else {
                q.spec_inverse()
            };
            if s.len() == 2 {
                Some(seq![m])
            } else if is_space(s[2]) {
                match parse_moves(s.subrange(2, s.len() as int)) {
                    Some(rest) => Some(seq![m] + rest),
                    None => None,
                }
            } else {
                None
            }
        } else if is_space(s[1]) {
            match parse_moves(s.subrange(1, s.len() as int)) {
                Some(rest) => Some(seq![q] + rest),
                None => None,
            }
        } else {
            None
        }
    }
}

fn space_char(c: char) -> (r: bool)
    ensures
        r == is_space(c),
{
    c == ' ' || c == '\t' || c == '\n' || c == '\r'
}

fn quarter_char(c: char) -> (r: Option<Move>)
    ensures
        r == quarter_of(c),
{
    match c {
        'U' => Some(Move::U),
        'D' => Some(Move::D),
        'R' => Some(Move::R),
        'L' => Some(Move::L),
        'F' => Some(Move::F),
        'B' => Some(Move::B),
        _ => None,
    }
}

fn double_move(m: Move) -> (r: Move)
    ensures
        r == double_of(m),
{
    match m {
        Move::U => Move::U2,
        Move::D => Move::D2,
        Move::R => Move::R2,
        Move::L => Move::L2,
        Move::F => Move::F2,
        Move::B => Move::B2,
        _ => m,
    }
}

/// Parse a scramble string into its move sequence. Fails exactly on text
/// that is not a whitespace-separated sequence of the 18 move tokens.
pub fn scramble_from_str(s: &str) -> (r: Result<Vec<Move>, Error>)
    ensures
        parse_moves(s@) matches Some(ms) ==> (r matches Ok(v) && v@ == ms),
        parse_moves(s@) is None ==> (r matches Err(e) && e == Error::InvalidScramble),
{
    let n = s.unicode_len();
    let mut ms: Vec<Move> = Vec::new();
    let mut i: usize = 0;
    proof {
        assert(s@.subrange(0, n as int) =~= s@);
        if parse_moves(s@) is Some {
            assert(Seq::<Move>::empty() + parse_moves(s@)->0 =~= parse_moves(s@)->0);
        }
    }
    while i < n
        invariant
            n == s@.len(),
            i <= n,
            (parse_moves(s@.subrange(i as int, n as int)) matches Some(rest) ==> parse_moves(s@)
                == Some(ms@ + rest)),
            (parse_moves(s@.subrange(i as int, n as int)) is None ==> parse_moves(s@) is None),
        decreases n - i,
    {
        let ghost suf = s@.subrange(i as int, n as int);
        let c = s.get_char(i);
        proof {
            assert(suf[0] == s@[i as int]);
            assert(suf.drop_first() =~= s@.subrange(i + 1, n as int));
        }
        if space_char(c) {
            i = i + 1;
        } else {
            match quarter_char(c) {
                None => {
                    proof {
                        assert(parse_moves(suf) is None);
                    }
                    return Err(Error::InvalidScramble);
                },
                Some(q) => {
                    if i + 1 == n {
                        ms.push(q);
                        i = n;
                        proof {
                            assert(suf.len() == 1);
                            assert(parse_moves(suf) == Some(seq![q]));
                            assert(s@.subrange(n as int, n as int).len() == 0);
                            assert(parse_moves(s@.subrange(n as int, n as int)) == Some(
                                Seq::<Move>::empty(),
                            ));
                            assert(ms@ + Seq::<Move>::empty() =~= ms@);
                            assert(ms@.drop_last() + seq![q] =~= ms@);
                        }
                    } else {
                        let c1 = s.get_char(i + 1);
                        proof {
                            assert(suf[1] == s@[i + 1]);
                        }
                        if c1 == '2' || c1 == '\'' {
                            let m = if c1 == '2' {
                                double_move(q)
                            } else {
                                q.get_inverse()
                            };
                            if i + 2 == n {
                                ms.push(m);
                                i = n;
                                proof {
                                    assert(suf.len() == 2);
                                    assert(parse_moves(suf) == Some(seq![m]));
                                    assert(parse_moves(s@.subrange(n as int, n as int)) == Some(
                                        Seq::<Move>::empty(),
                                    ));
                                    assert(ms@ + Seq::<Move>::empty() =~= ms@);
                                    assert(ms@.drop_last() + (seq![m] + Seq::<Move>::empty())
                                        =~= ms@);
                                }
                            } else {
                                let c2 = s.get_char(i + 2);
                                proof {
                                    assert(suf[2] == s@[i + 2]);
                                    assert(suf.subrange(2, suf.len() as int) =~= s@.subrange(
                                        i + 2,
                                        n as int,
                                    ));
                                }
                                if space_char(c2) {
                                    let ghost old_ms = ms@;
                                    ms.push(m);
                                    i = i + 2;
                                    proof {
                                        let rest_s = s@.subrange(i as int, n as int);
                                        if parse_moves(rest_s) is Some {
                                            let rest = parse_moves(rest_s)->0;
                                            assert(parse_moves(suf) == Some(seq![m] + rest));
                                            assert(old_ms + (seq![m] + rest) =~= ms@ + rest);
                                        } else {
                                            assert(parse_moves(suf) is None);
                                        }
                                    }
                                } else {
                                    proof {
                                        assert(parse_moves(suf) is None);
                                    }
                                    return Err(Error::InvalidScramble);
                                }
                            }
                        } else if space_char(c1) {
                            let ghost old_ms = ms@;
                            ms.push(q);
                            i = i + 1;
                            proof {
                                let rest_s = s@.subrange(i as int, n as int);
                                assert(suf.subrange(1, suf.len() as int) =~= rest_s);
                                if parse_moves(rest_s) is Some {
                                    let rest = parse_moves(rest_s)->0;
                                    assert(parse_moves(suf) == Some(seq![q] + rest));
                                    assert(old_ms + (seq![q] + rest) =~= ms@ + rest);
                                } else {
                                    assert(parse_moves(suf) is None);
                                }
                            }
                        } else {
                            proof {
                                assert(parse_moves(suf) is None);
                            }
                            return Err(Error::InvalidScramble);
                        }
                    }
                },
            }
        }
    }
    proof {
        let empty_s = s@.subrange(n as int, n as int);
        assert(empty_s.len() == 0);
        assert(parse_moves(empty_s) == Some(Seq::<Move>::empty()));
        assert(ms@ + Seq::<Move>::empty() =~= ms@);
    }
    Ok(ms)
}

/// Check a scramble string, handing back an owned copy when it parses.
pub fn validate_scramble(scramble: &str) -> (r: Result<String, Error>)
    ensures
        parse_moves(scramble@) is Some ==> (r matches Ok(v) && v@ == scramble@),
        parse_moves(scramble@) is None ==> (r matches Err(e) && e == Error::InvalidScramble),
{
    match scramble_from_str(scramble) {
        Ok(_) => Ok(scramble.to_owned()),
        Err(e) => Err(e),
    }
}

/// A scramble for the given state: solve it and play the solution
/// backwards, each move inverted. Applying the scramble to the solved cube
/// reproduces the state.
pub fn scramble_from_state(state: CubieCube, solver: &mut Solver) -> (r: Result<Vec<Move>, Error>)
    requires
        old(solver).inv(),
        solvable(state@),
    ensures
        final(solver).inv(),
        r matches Ok(ms) ==> crate::moves::apply_seq(crate::cubie::solved_view(), ms@) == state@,
        r matches Err(e) ==> e == Error::InvalidCubieValue,
{
    let solution = solver.solve(state);
    match solution {
        Some(solution) => {
            let all = solution.get_all_moves();
            let n = all.len();
            let mut ms: Vec<Move> = Vec::new();
            for i in 0..n
                invariant
                    n == all@.len(),
                    ms@.len() == i,
                    forall|k: int| 0 <= k < i ==> #[trigger] ms@[k] == all@[n - 1 - k].spec_inverse(),
            {
                ms.push(all[n - 1 - i].get_inverse());
            }
            proof {
                let sol = all@;
                assert(solves(state@, sol));
                assert(ms@ =~= crate::moves::reversed_inverses(sol));
                crate::moves::lemma_apply_seq_undo(state@, sol);
            }
            Ok(ms)
        },
        None => Err(Error::InvalidCubieValue),
    }
}

} // verus!
