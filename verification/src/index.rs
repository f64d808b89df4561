//! Bijective encodings of cube coordinates into dense integer indices:
//! mixed-radix ranks for orientations, Lehmer ranks for permutations, and a
//! colex combination rank for the E-slice edge positions.

use vstd::prelude::*;

use crate::cubie::{ints, no_dups, seq_sum, Corner, Edge};

verus! {

broadcast use vstd::array::group_array_axioms;

/// `b` to the power `n`.
pub open spec fn powi(b: int, n: nat) -> int
    decreases n,
{
    if n == 0 {
        1
    } else {
        b * powi(b, (n - 1) as nat)
    }
}

/// `n` factorial.
pub open spec fn fact(n: nat) -> int
    decreases n,
{
    if n == 0 {
        1
    } else {
        n * fact((n - 1) as nat)
    }
}

/// The mixed-radix rank of a digit sequence, most significant digit first.
pub open spec fn ori_rank(s: Seq<int>, b: int) -> int
    decreases s.len(),
{
    if s.len() == 0 {
        0
    } else {
        ori_rank(s.drop_last(), b) * b + s.last()
    }
}

/// The `n` base-`b` digits of `idx`, most significant first.
pub open spec fn ori_digits(b: int, n: nat, idx: int) -> Seq<int> {
    Seq::new(n, |k: int| (idx / powi(b, (n - 1 - k) as nat)) % b)
}

/// The digit sequence an orientation decode produces: the `n` digits of the
/// index followed by the completion digit that makes the sum vanish mod `b`.
pub open spec fn ori_decoded(b: int, n: nat, idx: int) -> Seq<int> {
    let d = ori_digits(b, n, idx);
    d.push((b - seq_sum(d) % b) % b)
}

pub proof fn lemma_powi_pos(b: int, n: nat)
    requires
        b >= 1,
    ensures
        powi(b, n) >= 1,
    decreases n,
{
    if n == 0 {
        assert(powi(b, 0) == 1);
    } else {
        lemma_powi_pos(b, (n - 1) as nat);
        assert(powi(b, n) == b * powi(b, (n - 1) as nat));
        assert(b * powi(b, (n - 1) as nat) >= 1) by (nonlinear_arith)
            requires
                b >= 1,
                powi(b, (n - 1) as nat) >= 1,
        ;
    }
}

/// A sequence of base-`b` digits has rank below `b^len`.
pub proof fn lemma_ori_rank_bound(s: Seq<int>, b: int)
    requires
        b >= 1,
        forall|i: int| 0 <= i < s.len() ==> 0 <= #[trigger] s[i] < b,
    ensures
        0 <= ori_rank(s, b) < powi(b, s.len()),
    decreases s.len(),
{
    if s.len() > 0 {
        let d = s.drop_last();
        assert(forall|i: int| 0 <= i < d.len() ==> 0 <= #[trigger] d[i] < b);
        lemma_ori_rank_bound(d, b);
        let r = ori_rank(d, b);
        assert(r * b + s.last() < powi(b, s.len())) by (nonlinear_arith)
            requires
                0 <= r < powi(b, (s.len() - 1) as nat),
                0 <= s.last() < b,
                powi(b, s.len()) == b * powi(b, (s.len() - 1) as nat),
        ;
        assert(r * b + s.last() >= 0) by (nonlinear_arith)
            requires
                r >= 0,
                b >= 1,
                s.last() >= 0,
        ;
    }
}

/// Ranking the digits of `idx` gives back `idx`.
pub proof fn lemma_ori_rank_of_digits(b: int, n: nat, idx: int)
    requires
        b >= 2,
        0 <= idx < powi(b, n),
    ensures
        ori_rank(ori_digits(b, n, idx), b) == idx,
    decreases n,
{
    let d = ori_digits(b, n, idx);
    if n == 0 {
        assert(powi(b, 0) == 1);
        assert(d =~= Seq::<int>::empty());
    } else {
        let q = idx / b;
        vstd::arithmetic::div_mod::lemma_div_pos_is_pos(idx, b);
        assert(powi(b, n) == b * powi(b, (n - 1) as nat));
        assert(q < powi(b, (n - 1) as nat)) by {
            vstd::arithmetic::div_mod::lemma_multiply_divide_lt(idx, b, powi(b, (n - 1) as nat));
        }
        lemma_ori_rank_of_digits(b, (n - 1) as nat, q);
        assert(d.drop_last() =~= ori_digits(b, (n - 1) as nat, q)) by {
            assert forall|k: int| 0 <= k < n - 1 implies d[k] == ori_digits(b, (n - 1) as nat, q)[k] by {
                let e = (n - 1 - k) as nat;
                assert(powi(b, e) == b * powi(b, (e - 1) as nat));
                lemma_powi_pos(b, (e - 1) as nat);
                vstd::arithmetic::div_mod::lemma_div_denominator(idx, b, powi(b, (e - 1) as nat));
                assert(idx / powi(b, e) == q / powi(b, (e - 1) as nat));
            }
        }
        assert(d.last() == idx % b) by {
            assert(powi(b, 0) == 1);
            vstd::arithmetic::div_mod::lemma_div_basics(idx);
        }
        vstd::arithmetic::div_mod::lemma_fundamental_div_mod(idx, b);
        assert(ori_rank(d, b) == ori_rank(d.drop_last(), b) * b + d.last());
        assert(ori_rank(d.drop_last(), b) == q);
        assert(ori_rank(d, b) == q * b + idx % b);
        assert(idx == b * q + idx % b);
        assert(q * b == b * q) by (nonlinear_arith);
    }
}

/// The digits of a rank are the digits ranked.
pub proof fn lemma_ori_digits_of_rank(s: Seq<int>, b: int)
    requires
        b >= 2,
        forall|i: int| 0 <= i < s.len() ==> 0 <= #[trigger] s[i] < b,
    ensures
        ori_digits(b, s.len(), ori_rank(s, b)) == s,
    decreases s.len(),
{
    let n = s.len();
    if n > 0 {
        let d = s.drop_last();
        assert(forall|i: int| 0 <= i < d.len() ==> 0 <= #[trigger] d[i] < b);
        lemma_ori_digits_of_rank(d, b);
        let rd = ori_rank(d, b);
        let r = ori_rank(s, b);
        assert(r == rd * b + s.last());
        lemma_ori_rank_bound(d, b);
        assert(r / b == rd && r % b == s.last()) by {
            vstd::arithmetic::div_mod::lemma_fundamental_div_mod_converse(r, b, rd, s.last());
        }
        assert(ori_digits(b, n, r) =~= s) by {
            assert forall|k: int| 0 <= k < n implies ori_digits(b, n, r)[k] == s[k] by {
                if k == n - 1 {
                    assert(powi(b, 0) == 1);
                    vstd::arithmetic::div_mod::lemma_div_basics(r);
                } else {
                    let e = (n - 1 - k) as nat;
                    assert(powi(b, e) == b * powi(b, (e - 1) as nat));
                    lemma_powi_pos(b, (e - 1) as nat);
                    vstd::arithmetic::div_mod::lemma_div_denominator(r, b, powi(b, (e - 1) as nat));
                    assert(r / powi(b, e) == rd / powi(b, (e - 1) as nat));
                    assert(ori_digits(b, (n - 1) as nat, rd)[k] == d[k]);
                    assert(d[k] == s[k]);
                }
            }
        }
    } else {
        assert(ori_digits(b, 0, 0) =~= s);
    }
}

/// The completion digit makes the whole sum vanish.
pub proof fn lemma_ori_decoded_sum(b: int, n: nat, idx: int)
    requires
        b >= 2,
    ensures
        seq_sum(ori_decoded(b, n, idx)) % b == 0,
{
    let d = ori_digits(b, n, idx);
    let s = seq_sum(d);
    let whole = ori_decoded(b, n, idx);
    assert(whole.drop_last() =~= d);
    assert(whole.last() == (b - s % b) % b);
    assert(seq_sum(whole) == s + (b - s % b) % b);
    let m = s % b;
    vstd::arithmetic::div_mod::lemma_mod_bound(s, b);
    if m == 0 {
        assert((b - m) % b == 0) by {
            vstd::arithmetic::div_mod::lemma_mod_self_0(b);
        }
        assert(seq_sum(whole) % b == 0);
    } else {
        assert(0 < b - m < b);
        assert((b - m) % b == b - m) by {
            vstd::arithmetic::div_mod::lemma_small_mod((b - m) as nat, b as nat);
        }
        assert(seq_sum(whole) == s + b - m);
        assert((s + b - m) % b == 0) by {
            vstd::arithmetic::div_mod::lemma_fundamental_div_mod(s, b);
            assert(s + b - m == (s / b + 1) * b) by (nonlinear_arith)
                requires
                    s == b * (s / b) + m,
            ;
            vstd::arithmetic::div_mod::lemma_mod_multiples_basic(s / b + 1, b);
        }
    }
}

/// Every digit the decode produces is in range.
pub proof fn lemma_ori_decoded_range(b: int, n: nat, idx: int)
    requires
        b >= 2,
        idx >= 0,
    ensures
        ori_decoded(b, n, idx).len() == n + 1,
        forall|i: int| 0 <= i < n + 1 ==> 0 <= #[trigger] ori_decoded(b, n, idx)[i] < b,
{
    let d = ori_digits(b, n, idx);
    let whole = ori_decoded(b, n, idx);
    assert forall|i: int| 0 <= i < n + 1 implies 0 <= #[trigger] whole[i] < b by {
        if i < n {
            assert(whole[i] == (idx / powi(b, (n - 1 - i) as nat)) % b);
            vstd::arithmetic::div_mod::lemma_mod_bound(idx / powi(b, (n - 1 - i) as nat), b);
        } else {
            let s = seq_sum(d);
            vstd::arithmetic::div_mod::lemma_mod_bound(b - s % b, b);
        }
    }
}

/// Digit-by-digit orientation decode: `len - 1` base-`cases` digits of
/// `index`, most significant first, then the digit that completes the sum
/// to a multiple of `cases`.
fn fill_orientation_slice(cases: u8, len: usize, index: u16) -> (r: Vec<u8>)
    requires
        cases == 2 || cases == 3,
        1 <= len <= 12,
        (index as int) < powi(cases as int, (len - 1) as nat),
    ensures
        r@.len() == len,
        ints(r@) == ori_decoded(cases as int, (len - 1) as nat, index as int),
{
    let b = cases as u16;
    let n = len - 1;
    let ghost digits = ori_digits(cases as int, n as nat, index as int);
    let mut r: Vec<u8> = Vec::new();
    for k in 0..len
        invariant
            r@.len() == k,
            forall|t: int| 0 <= t < k ==> r@[t] == 0,
    {
        r.push(0);
    }
    let mut cur: u16 = index;
    let mut sum: u8 = 0;
    let mut i: usize = n;
    while i > 0
        invariant
            cases == 2 || cases == 3,
            b == cases as u16,
            n == len - 1,
            len <= 12,
            r@.len() == len,
            0 <= i <= n,
            (index as int) < powi(cases as int, n as nat),
            digits == ori_digits(cases as int, n as nat, index as int),
            cur as int == index as int / powi(cases as int, (n - i) as nat),
            forall|t: int| i <= t < n ==> ints(r@)[t] == digits[t],
            forall|t: int| 0 <= t < i ==> r@[t] == 0,
            r@[n as int] == 0,
            sum as int == seq_sum(ints(r@).subrange(i as int, n as int)),
            sum <= 2 * (n - i),
        decreases i,
    {
        i = i - 1;
        let ghost prev = r@;
        let d = (cur % b) as u8;
        r[i] = d;
        proof {
            let e = (n - i) as nat;
            assert(powi(cases as int, e) == (cases as int) * powi(cases as int, (e - 1) as nat));
            lemma_powi_pos(cases as int, (e - 1) as nat);
            vstd::arithmetic::div_mod::lemma_div_denominator(
                index as int,
                powi(cases as int, (e - 1) as nat),
                cases as int,
            );
            assert((cur / b) as int == index as int / powi(cases as int, e));
            vstd::arithmetic::div_mod::lemma_mod_bound(cur as int, cases as int);
            assert(digits[i as int] == (index as int / powi(cases as int, (n - 1 - i) as nat)) % (
            cases as int));
            assert(d as int == digits[i as int]);
            assert forall|t: int| i <= t < n implies ints(r@)[t] == digits[t] by {
                if t > i {
                    assert(ints(prev)[t] == digits[t]);
                    assert(r@[t] == prev[t]);
                }
            }
            let old_sub = ints(prev).subrange(i + 1, n as int);
            let new_sub = ints(r@).subrange(i as int, n as int);
            assert(new_sub.drop_first() =~= old_sub);
            assert(new_sub[0] == d as int);
            lemma_seq_sum_first(new_sub);
        }
        cur = cur / b;
        sum = sum + d;
    }
    let last = (cases - sum % cases) % cases;
    let ghost prev = r@;
    r[n] = last;
    proof {
        let whole = ori_decoded(cases as int, n as nat, index as int);
        assert forall|t: int| 0 <= t < len implies ints(r@)[t] == whole[t] by {
            if t < n {
                assert(ints(prev)[t] == digits[t]);
                assert(r@[t] == prev[t]);
            } else {
                assert(ints(prev).subrange(0, n as int) =~= digits);
                assert(sum as int == seq_sum(digits));
                assert(r@[t] == last);
            }
        }
        assert(ints(r@) =~= whole);
    }
    r
}

/// `seq_sum` of a nonempty sequence, taken from the front.
proof fn lemma_seq_sum_first(s: Seq<int>)
    requires
        s.len() > 0,
    ensures
        seq_sum(s) == s[0] + seq_sum(s.drop_first()),
    decreases s.len(),
{
    if s.len() == 1 {
        assert(s.drop_first() =~= Seq::<int>::empty());
        assert(s.drop_last() =~= Seq::<int>::empty());
    } else {
        let d = s.drop_last();
        lemma_seq_sum_first(d);
        assert(s.drop_first().drop_last() =~= d.drop_first());
        assert(s.drop_first().last() == s.last());
        assert(d[0] == s[0]);
        assert(seq_sum(s) == seq_sum(d) + s.last());
        assert(seq_sum(s.drop_first()) == seq_sum(d.drop_first()) + s.last());
    }
}

/// The corner-orientation coordinate: base-3 rank of the first seven twist
/// values. The eighth is determined by the sum invariant.
pub fn co_to_index(corner: &[u8; 8]) -> (r: u16)
    requires
        forall|i: int| 0 <= i < 7 ==> #[trigger] corner@[i] < 3,
    ensures
        r as int == ori_rank(ints(corner@).take(7), 3),
        r < 2187,
{
    let mut index: u16 = 0;
    for i in 0..7
        invariant
            forall|k: int| 0 <= k < 7 ==> #[trigger] corner@[k] < 3,
            index as int == ori_rank(ints(corner@).take(i as int), 3),
            (index as int) < powi(3, i as nat),
    {
        proof {
            let t = ints(corner@).take(i + 1);
            assert(t.drop_last() =~= ints(corner@).take(i as int));
            assert(t.last() == corner@[i as int] as int);
            assert(powi(3, (i + 1) as nat) == 3 * powi(3, i as nat));
            assert((index as int) * 3 + corner@[i as int] < powi(3, (i + 1) as nat)) by (
            nonlinear_arith)
                requires
                    (index as int) < powi(3, i as nat),
                    corner@[i as int] < 3,
                    powi(3, (i + 1) as nat) == 3 * powi(3, i as nat),
            ;
            assert(powi(3, 7) == 2187) by {
                assert(powi(3, 0) == 1);
                assert(powi(3, 1) == 3);
                assert(powi(3, 2) == 9);
                assert(powi(3, 3) == 27);
                assert(powi(3, 4) == 81);
                assert(powi(3, 5) == 243);
                assert(powi(3, 6) == 729);
            }
            assert(powi(3, (i + 1) as nat) <= 2187) by {
                lemma_powi_increases(3, (i + 1) as nat, 7);
            }
        }
        index = index * 3 + corner[i] as u16;
    }
    proof {
        assert(powi(3, 7) == 2187) by {
            assert(powi(3, 0) == 1);
            assert(powi(3, 1) == 3);
            assert(powi(3, 2) == 9);
            assert(powi(3, 3) == 27);
            assert(powi(3, 4) == 81);
            assert(powi(3, 5) == 243);
            assert(powi(3, 6) == 729);
        }
    }
    index
}

proof fn lemma_powi_increases(b: int, n: nat, m: nat)
    requires
        b >= 1,
        n <= m,
    ensures
        powi(b, n) <= powi(b, m),
    decreases m,
{
    if n < m {
        lemma_powi_increases(b, n, (m - 1) as nat);
        lemma_powi_pos(b, (m - 1) as nat);
        vstd::arithmetic::mul::lemma_mul_inequality(1, b, powi(b, (m - 1) as nat));
        assert(powi(b, m) == b * powi(b, (m - 1) as nat));
        assert(powi(b, (m - 1) as nat) * 1 <= powi(b, (m - 1) as nat) * b) by (nonlinear_arith)
            requires
                b >= 1,
                powi(b, (m - 1) as nat) >= 1,
        ;
    }
}

/// Decode a corner-orientation coordinate: seven digits and the completing
/// eighth.
pub fn index_to_co(index: u16) -> (r: [u8; 8])
    requires
        index < 2187,
    ensures
        ints(r@) == ori_decoded(3, 7, index as int),
        forall|i: int| 0 <= i < 8 ==> 0 <= #[trigger] ints(r@)[i] < 3,
        seq_sum(ints(r@)) % 3 == 0,
        ori_rank(ints(r@).take(7), 3) == index,
{
    proof {
        assert(powi(3, 7) == 2187) by {
            assert(powi(3, 0) == 1);
            assert(powi(3, 1) == 3);
            assert(powi(3, 2) == 9);
            assert(powi(3, 3) == 27);
            assert(powi(3, 4) == 81);
            assert(powi(3, 5) == 243);
            assert(powi(3, 6) == 729);
        }
    }
    let v = fill_orientation_slice(3, 8, index);
    let mut r: [u8; 8] = [0, 0, 0, 0, 0, 0, 0, 0];
    for i in 0..8
        invariant
            v@.len() == 8,
            ints(v@) == ori_decoded(3, 7, index as int),
            forall|k: int| 0 <= k < i ==> r@[k] == v@[k],
    {
        r[i] = v[i];
    }
    proof {
        assert(ints(r@) =~= ints(v@));
        lemma_ori_decoded_sum(3, 7, index as int);
        lemma_ori_decoded_range(3, 7, index as int);
        let whole = ori_decoded(3, 7, index as int);
        assert(whole.take(7) =~= ori_digits(3, 7, index as int));
        lemma_ori_rank_of_digits(3, 7, index as int);
    }
    r
}

/// The edge-orientation coordinate: base-2 rank of the first eleven flip
/// values.
pub fn eo_to_index(edge: &[u8; 12]) -> (r: u16)
    requires
        forall|i: int| 0 <= i < 11 ==> #[trigger] edge@[i] < 2,
    ensures
        r as int == ori_rank(ints(edge@).take(11), 2),
        r < 2048,
{
    let mut index: u16 = 0;
    for i in 0..11
        invariant
            forall|k: int| 0 <= k < 11 ==> #[trigger] edge@[k] < 2,
            index as int == ori_rank(ints(edge@).take(i as int), 2),
            (index as int) < powi(2, i as nat),
    {
        proof {
            let t = ints(edge@).take(i + 1);
            assert(t.drop_last() =~= ints(edge@).take(i as int));
            assert(t.last() == edge@[i as int] as int);
            assert(powi(2, (i + 1) as nat) == 2 * powi(2, i as nat));
            assert((index as int) * 2 + edge@[i as int] < powi(2, (i + 1) as nat)) by (
            nonlinear_arith)
                requires
                    (index as int) < powi(2, i as nat),
                    edge@[i as int] < 2,
                    powi(2, (i + 1) as nat) == 2 * powi(2, i as nat),
            ;
            assert(powi(2, 11) == 2048) by {
                lemma_pow2_small();
            }
            assert(powi(2, (i + 1) as nat) <= 2048) by {
                lemma_powi_increases(2, (i + 1) as nat, 11);
            }
        }
        index = index * 2 + edge[i] as u16;
    }
    proof {
        lemma_pow2_small();
    }
    index
}

proof fn lemma_pow2_small()
    ensures
        powi(2, 7) == 128,
        powi(2, 11) == 2048,
{
    assert(powi(2, 0) == 1);
    assert(powi(2, 1) == 2);
    assert(powi(2, 2) == 4);
    assert(powi(2, 3) == 8);
    assert(powi(2, 4) == 16);
    assert(powi(2, 5) == 32);
    assert(powi(2, 6) == 64);
    assert(powi(2, 7) == 128);
    assert(powi(2, 8) == 256);
    assert(powi(2, 9) == 512);
    assert(powi(2, 10) == 1024);
    assert(powi(2, 11) == 2048);
}

/// Decode an edge-orientation coordinate: eleven digits and the completing
/// twelfth.
pub fn index_to_eo(index: u16) -> (r: [u8; 12])
    requires
        index < 2048,
    ensures
        ints(r@) == ori_decoded(2, 11, index as int),
        forall|i: int| 0 <= i < 12 ==> 0 <= #[trigger] ints(r@)[i] < 2,
        seq_sum(ints(r@)) % 2 == 0,
        ori_rank(ints(r@).take(11), 2) == index,
{
    proof {
        lemma_pow2_small();
    }
    let v = fill_orientation_slice(2, 12, index);
    let mut r: [u8; 12] = [0, 0, 0, 0, 0, 0, 0, 0, 0, 0, 0, 0];
    for i in 0..12
        invariant
            v@.len() == 12,
            ints(v@) == ori_decoded(2, 11, index as int),
            forall|k: int| 0 <= k < i ==> r@[k] == v@[k],
    {
        r[i] = v[i];
    }
    proof {
        assert(ints(r@) =~= ints(v@));
        lemma_ori_decoded_sum(2, 11, index as int);
        lemma_ori_decoded_range(2, 11, index as int);
        let whole = ori_decoded(2, 11, index as int);
        assert(whole.take(11) =~= ori_digits(2, 11, index as int));
        lemma_ori_rank_of_digits(2, 11, index as int);
    }
    r
}

/// The corner sequence as plain integers.
pub open spec fn corner_ints(s: Seq<Corner>) -> Seq<int> {
    Seq::new(s.len(), |i: int| s[i].idx())
}

/// The edge sequence as plain integers.
pub open spec fn edge_ints(s: Seq<Edge>) -> Seq<int> {
    Seq::new(s.len(), |i: int| s[i].idx())
}

/// How many positions in `[i + 1, j)` hold a value smaller than the one at
/// position `i`.
pub open spec fn cnt_lt(s: Seq<int>, i: int, j: int) -> int
    decreases j,
{
    if j <= i + 1 || i < 0 || j > s.len() {
        0
    } else {
        cnt_lt(s, i, j - 1) + if s[j - 1] < s[i] {
            1int
        } else {
            0int
        }
    }
}

/// The Lehmer rank accumulated over the first `i` positions.
pub open spec fn lehmer_prefix(s: Seq<int>, i: int) -> int
    decreases i,
{
    if i <= 0 {
        0
    } else {
        lehmer_prefix(s, i - 1) * (s.len() - (i - 1)) + cnt_lt(s, i - 1, s.len() as int)
    }
}

/// The Lehmer rank of a sequence: positions are weighted by falling
/// factorials and each digit counts the later, smaller entries.
pub open spec fn lehmer_rank(s: Seq<int>) -> int {
    lehmer_prefix(s, s.len() as int)
}

/// The falling factorial `n * (n-1) * ... * (n-k+1)`.
pub open spec fn ff(n: int, k: int) -> int
    decreases k,
{
    if k <= 0 {
        1
    } else {
        (n - k + 1) * ff(n, k - 1)
    }
}

pub proof fn lemma_fact_pos(n: nat)
    ensures
        fact(n) >= 1,
    decreases n,
{
    if n > 0 {
        lemma_fact_pos((n - 1) as nat);
        assert(fact(n) == n * fact((n - 1) as nat));
        assert(n * fact((n - 1) as nat) >= 1) by (nonlinear_arith)
            requires
                n >= 1,
                fact((n - 1) as nat) >= 1,
        ;
    }
}

proof fn lemma_cnt_lt_bound(s: Seq<int>, i: int, j: int)
    requires
        0 <= i,
        i + 1 <= j <= s.len(),
    ensures
        0 <= cnt_lt(s, i, j) <= j - i - 1,
    decreases j,
{
    if j > i + 1 {
        lemma_cnt_lt_bound(s, i, j - 1);
    }
}

proof fn lemma_ff_fact(n: nat, k: nat)
    requires
        k <= n,
    ensures
        ff(n as int, k as int) * fact((n - k) as nat) == fact(n),
        ff(n as int, k as int) >= 1,
    decreases k,
{
    lemma_fact_pos((n - k) as nat);
    if k == 0 {
        assert(ff(n as int, 0) == 1);
    } else {
        lemma_ff_fact(n, (k - 1) as nat);
        let a = ff(n as int, (k - 1) as int);
        let m = (n - k + 1) as int;
        assert(fact((n - k + 1) as nat) == m * fact((n - k) as nat));
        assert(ff(n as int, k as int) == m * a);
        assert((m * a) * fact((n - k) as nat) == a * (m * fact((n - k) as nat))) by (
        nonlinear_arith);
        assert(a * fact((n - k + 1) as nat) == fact(n));
        assert(m * a >= 1) by (nonlinear_arith)
            requires
                m >= 1,
                a >= 1,
        ;
    }
}

/// The Lehmer prefix stays below the falling factorial of processed
/// positions.
pub proof fn lemma_lehmer_prefix_bound(s: Seq<int>, i: int)
    requires
        0 <= i <= s.len(),
    ensures
        0 <= lehmer_prefix(s, i) < ff(s.len() as int, i),
    decreases i,
{
    let n = s.len() as int;
    if i == 0 {
        assert(ff(n, 0) == 1);
    } else {
        lemma_lehmer_prefix_bound(s, i - 1);
        lemma_cnt_lt_bound(s, i - 1, n);
        let p = lehmer_prefix(s, i - 1);
        let c = cnt_lt(s, i - 1, n);
        let w = n - i + 1;
        assert(ff(n, i) == w * ff(n, i - 1));
        assert(0 <= p * w + c < w * ff(n, i - 1)) by (nonlinear_arith)
            requires
                0 <= p < ff(n, i - 1),
                0 <= c <= w - 1,
                w >= 1,
        ;
    }
}

proof fn lemma_fact_12()
    ensures
        fact(8) == 40320,
        fact(12) == 479001600,
        fact(4) == 24,
{
    assert(fact(0) == 1);
    assert(fact(1) == 1);
    assert(fact(2) == 2);
    assert(fact(3) == 6);
    assert(fact(4) == 24);
    assert(fact(5) == 120);
    assert(fact(6) == 720);
    assert(fact(7) == 5040);
    assert(fact(8) == 40320);
    assert(fact(9) == 362880);
    assert(fact(10) == 3628800);
    assert(fact(11) == 39916800);
    assert(fact(12) == 479001600);
}

/// The Lehmer rank of a sequence of length at most 12 is below the
/// factorial of its length.
pub proof fn lemma_lehmer_rank_bound(s: Seq<int>)
    ensures
        0 <= lehmer_rank(s) < fact(s.len()),
{
    lemma_lehmer_prefix_bound(s, s.len() as int);
    lemma_ff_fact(s.len(), s.len());
    assert(fact((s.len() - s.len()) as nat) == 1);
}

/// The Lehmer rank of a slice of plain values.
pub fn slice_to_index(cp: &[u8]) -> (r: usize)
    requires
        cp@.len() <= 12,
    ensures
        r as int == lehmer_rank(ints(cp@)),
        r < 479001600,
{
    let len = cp.len();
    let ghost s = ints(cp@);
    let mut index: usize = 0;
    proof {
        lemma_fact_12();
    }
    for i in 0..len
        invariant
            len == cp@.len(),
            len <= 12,
            s == ints(cp@),
            index as int == lehmer_prefix(s, i as int),
            fact(12) == 479001600,
    {
        proof {
            lemma_lehmer_prefix_bound(s, i as int);
            lemma_ff_fact(len as nat, (i + 1) as nat);
            lemma_fact_pos(((len - i) - 1) as nat);
            lemma_fact_le(len as nat, 12);
            assert(ff(len as int, i + 1) * fact((len - i - 1) as nat) == fact(len as nat));
            assert(ff(len as int, i + 1) <= fact(len as nat)) by (nonlinear_arith)
                requires
                    ff(len as int, i + 1) >= 1,
                    fact((len - i - 1) as nat) >= 1,
                    ff(len as int, i + 1) * fact((len - i - 1) as nat) == fact(len as nat),
            ;
            assert(ff(len as int, i + 1) == (len - i) * ff(len as int, i as int));
            assert((index as int) * (len - i) < ff(len as int, i + 1)) by (nonlinear_arith)
                requires
                    0 <= (index as int) && (index as int) < ff(len as int, i as int),
                    ff(len as int, i + 1) == (len - i) * ff(len as int, i as int),
                    len - i >= 1,
            ;
        }
        index = index * (len - i);
        let ghost mid = index as int;
        for j in (i + 1)..len
            invariant
                len == cp@.len(),
                len <= 12,
                s == ints(cp@),
                i < len,
                index as int == mid + cnt_lt(s, i as int, j as int),
                mid == lehmer_prefix(s, i as int) * (len - i),
                mid + (len - i) < 479001600 + 12,
                index as int <= mid + (j - i - 1),
        {
            proof {
                let extra: int = if s[j as int] < s[i as int] { 1 } else { 0 };
                assert(cnt_lt(s, i as int, j + 1) == cnt_lt(s, i as int, j as int) + extra);
                assert(s[i as int] == cp@[i as int] as int);
                assert(s[j as int] == cp@[j as int] as int);
            }
            if cp[i] > cp[j] {
                index = index + 1;
            }
        }
        proof {
            assert(lehmer_prefix(s, i + 1) == lehmer_prefix(s, i as int) * (len - i) + cnt_lt(
                s,
                i as int,
                len as int,
            ));
        }
    }
    proof {
        lemma_lehmer_prefix_bound(s, len as int);
        lemma_ff_fact(len as nat, len as nat);
        assert(fact((len - len) as nat) == 1);
        lemma_fact_le(len as nat, 12);
    }
    index
}

proof fn lemma_fact_le(n: nat, m: nat)
    requires
        n <= m,
    ensures
        fact(n) <= fact(m),
    decreases m,
{
    if n < m {
        lemma_fact_le(n, (m - 1) as nat);
        lemma_fact_pos((m - 1) as nat);
        assert(fact(m) == m * fact((m - 1) as nat));
        assert(fact((m - 1) as nat) * 1 <= m * fact((m - 1) as nat)) by (nonlinear_arith)
            requires
                m >= 1,
                fact((m - 1) as nat) >= 1,
        ;
    }
}

/// Raise every entry by `o`.
pub open spec fn add_off(s: Seq<int>, o: int) -> Seq<int> {
    Seq::new(s.len(), |i: int| s[i] + o)
}

/// Raise the entries at or above `t` by one.
pub open spec fn bump_ge(s: Seq<int>, t: int) -> Seq<int> {
    Seq::new(s.len(), |i: int| if s[i] >= t { s[i] + 1 } else { s[i] })
}

/// The permutation a Lehmer decode of length `m` produces: the front digit
/// is extracted with modulus `m` after the `m - 1` smaller moduli, and the
/// previously decoded suffix is shifted around it.
pub open spec fn perm_decoded(m: nat, idx: int) -> Seq<int>
    decreases m,
{
    if m == 0 {
        Seq::empty()
    } else if m == 1 {
        seq![0int]
    } else {
        let d = (idx / fact((m - 1) as nat)) % (m as int);
        seq![d] + bump_ge(perm_decoded((m - 1) as nat, idx), d)
    }
}

/// A decoded sequence is a permutation of `0 .. m`.
pub proof fn lemma_perm_decoded_props(m: nat, idx: int)
    requires
        idx >= 0,
    ensures
        perm_decoded(m, idx).len() == m,
        forall|k: int| 0 <= k < m ==> 0 <= #[trigger] perm_decoded(m, idx)[k] < m,
        no_dups(perm_decoded(m, idx)),
    decreases m,
{
    let p = perm_decoded(m, idx);
    if m == 0 {
    } else if m == 1 {
        assert(p[0] == 0);
    } else {
        let rest = perm_decoded((m - 1) as nat, idx);
        lemma_perm_decoded_props((m - 1) as nat, idx);
        lemma_fact_pos((m - 1) as nat);
        let d = (idx / fact((m - 1) as nat)) % (m as int);
        vstd::arithmetic::div_mod::lemma_div_pos_is_pos(idx, fact((m - 1) as nat));
        vstd::arithmetic::div_mod::lemma_mod_bound(idx / fact((m - 1) as nat), m as int);
        assert(0 <= d < m);
        let b = bump_ge(rest, d);
        assert forall|k: int| 0 <= k < m implies 0 <= #[trigger] p[k] < m by {
            if k == 0 {
                assert(p[0] == d);
            } else {
                assert(p[k] == b[k - 1]);
                assert(0 <= rest[k - 1] < m - 1);
            }
        }
        assert forall|a: int, k: int| 0 <= a < k < m implies p[a] != p[k] by {
            if a == 0 {
                assert(p[0] == d);
                assert(p[k] == b[k - 1]);
            } else {
                assert(p[a] == b[a - 1]);
                assert(p[k] == b[k - 1]);
                assert(rest[a - 1] != rest[k - 1]);
            }
        }
    }
}

/// Lehmer decode of `len` values starting at `offset`: the relative order
/// of the result is the permutation the index names.
fn fill_perm_slice(len: usize, index: usize, offset: u8) -> (r: Vec<u8>)
    requires
        1 <= len <= 12,
        offset <= 12,
    ensures
        r@.len() == len,
        ints(r@) == add_off(perm_decoded(len as nat, index as int), offset as int),
        forall|k: int|
            0 <= k < len ==> offset as int <= #[trigger] ints(r@)[k] < offset + len,
        no_dups(ints(r@)),
{
    let mut r: Vec<u8> = Vec::new();
    for k in 0..len
        invariant
            r@.len() == k,
            forall|t: int| 0 <= t < k ==> r@[t] == 0,
    {
        r.push(0);
    }
    let mut cur: usize = index;
    let mut i: usize = len - 1;
    proof {
        assert(fact(0) == 1);
        assert(fact(1) == 1);
        vstd::arithmetic::div_mod::lemma_div_basics(index as int);
        assert(ints(r@).subrange(i as int, len as int) =~= perm_decoded(1, index as int));
    }
    while i > 0
        invariant
            1 <= len <= 12,
            i <= len - 1,
            r@.len() == len,
            forall|t: int| 0 <= t < i ==> r@[t] == 0,
            ints(r@).subrange(i as int, len as int) == perm_decoded(
                (len - i) as nat,
                index as int,
            ),
            cur as int == index as int / fact((len - i) as nat),
        decreases i,
    {
        i = i - 1;
        let m = len - i;
        let ghost old_suffix = ints(r@).subrange(i + 1, len as int);
        proof {
            lemma_perm_decoded_props((m - 1) as nat, index as int);
            lemma_fact_pos((m - 1) as nat);
        }
        let d = (cur % m) as u8;
        proof {
            vstd::arithmetic::div_mod::lemma_mod_bound(cur as int, m as int);
        }
        let ghost before_bump = r@;
        let mut j = i + 1;
        while j < len
            invariant
                i + 1 <= j <= len,
                r@.len() == len,
                len <= 12,
                i < len,
                m == len - i,
                d < m,
                before_bump.len() == len,
                old_suffix == ints(before_bump).subrange(i + 1, len as int),
                old_suffix == perm_decoded((m - 1) as nat, index as int),
                forall|t: int| 0 <= t <= i ==> r@[t] == before_bump[t],
                forall|t: int|
                    i + 1 <= t < j ==> ints(r@)[t] == bump_ge(old_suffix, d as int)[t - i - 1],
                forall|t: int| j <= t < len ==> r@[t] == before_bump[t],
            decreases len - j,
        {
            proof {
                lemma_perm_decoded_props((m - 1) as nat, index as int);
                assert(r@[j as int] == before_bump[j as int]);
                let sb = ints(before_bump).subrange(i + 1, len as int);
                assert(sb[j - i - 1] == ints(before_bump)[j as int]);
                assert(old_suffix[j - i - 1] == sb[j - i - 1]);
                assert(ints(before_bump)[j as int] == before_bump[j as int] as int);
                assert(ints(r@)[j as int] == r@[j as int] as int);
                assert(ints(r@)[j as int] == old_suffix[j - i - 1]);
                assert(0 <= old_suffix[j - i - 1] < m - 1);
            }
            let ghost prev = r@;
            if r[j] >= d {
                let v = r[j];
                r[j] = v + 1;
            }
            proof {
                assert forall|t: int|
                    i + 1 <= t < j + 1 implies ints(r@)[t] == bump_ge(old_suffix, d as int)[t - i
                    - 1] by {
                    if t < j {
                        assert(ints(prev)[t] == bump_ge(old_suffix, d as int)[t - i - 1]);
                        assert(r@[t] == prev[t]);
                    }
                }
            }
            j = j + 1;
        }
        let ghost before_front = r@;
        r[i] = d;
        cur = cur / m;
        proof {
            let mn = m as nat;
            let fm1 = fact((m - 1) as nat);
            assert(fact(mn) == m * fm1);
            vstd::arithmetic::div_mod::lemma_div_denominator(index as int, fm1, m as int);
            assert(index as int / fact(mn) == (index as int / fm1) / (m as int));
            let p = perm_decoded(mn, index as int);
            let dd = (index as int / fm1) % (m as int);
            assert(dd == d as int);
            assert(p == seq![dd] + bump_ge(perm_decoded((mn - 1) as nat, index as int), dd));
            assert forall|t: int| 0 <= t < i implies r@[t] == 0 by {
                assert(r@[t] == before_front[t]);
                assert(before_front[t] == before_bump[t]);
            }
            assert(ints(r@).subrange(i as int, len as int) =~= p) by {
                assert forall|t: int|
                    0 <= t < m implies ints(r@).subrange(i as int, len as int)[t] == p[t] by {
                    if t == 0 {
                        assert(ints(r@)[i as int] == d as int);
                    } else {
                        assert(r@[i + t] == before_front[i + t]);
                        assert(ints(before_front)[i + t] == bump_ge(old_suffix, d as int)[t - 1]);
                    }
                }
            }
        }
    }
    proof {
        assert(ints(r@).subrange(0, len as int) =~= ints(r@));
        lemma_perm_decoded_props(len as nat, index as int);
    }
    let ghost decoded = ints(r@);
    for k in 0..len
        invariant
            r@.len() == len,
            len <= 12,
            offset <= 12,
            decoded == perm_decoded(len as nat, index as int),
            forall|t: int| 0 <= t < len ==> 0 <= #[trigger] decoded[t] < len,
            forall|t: int| k <= t < len ==> ints(r@)[t] == decoded[t],
            forall|t: int| 0 <= t < k ==> ints(r@)[t] == decoded[t] + offset,
    {
        let ghost prev = r@;
        let v = r[k];
        proof {
            assert(v as int == ints(r@)[k as int]);
            assert(decoded[k as int] < len);
        }
        r[k] = v + offset;
        proof {
            assert forall|t: int| 0 <= t < k + 1 implies ints(r@)[t] == decoded[t] + offset by {
                if t < k {
                    assert(ints(prev)[t] == decoded[t] + offset);
                    assert(r@[t] == prev[t]);
                }
            }
            assert forall|t: int| k + 1 <= t < len implies ints(r@)[t] == decoded[t] by {
                assert(ints(prev)[t] == decoded[t]);
                assert(r@[t] == prev[t]);
            }
        }
    }
    proof {
        assert(ints(r@) =~= add_off(decoded, offset as int));
        assert forall|a: int, b2: int| 0 <= a < b2 < len implies ints(r@)[a] != ints(r@)[b2] by {
            assert(decoded[a] != decoded[b2]);
        }
    }
    r
}

/// The corner permutation a coordinate decodes to.
pub open spec fn cp_decoded(idx: int) -> Seq<int> {
    perm_decoded(8, idx)
}

/// The edge permutation a coordinate decodes to.
pub open spec fn ep_decoded(idx: int) -> Seq<int> {
    perm_decoded(12, idx)
}

/// The edge arrangement a UD-edge coordinate decodes to: the E slice holds
/// edge 4 placeholders and positions 4..12 permute edges 4..12.
pub open spec fn ud_ep_decoded(idx: int) -> Seq<int> {
    Seq::new(12, |k: int| if k < 4 { 4 } else { perm_decoded(8, idx)[k - 4] + 4 })
}

/// The edge arrangement an E-slice coordinate decodes to: positions 0..4
/// permute edges 0..4 and the rest hold edge 0 placeholders.
pub open spec fn e_ep_decoded(idx: int) -> Seq<int> {
    Seq::new(12, |k: int| if k < 4 { perm_decoded(4, idx)[k] } else { 0 })
}

/// The edge arrangement a cross coordinate decodes to: positions 0..8
/// permute edges 0..8 and the D-layer edges are solved.
pub open spec fn ep_cross_decoded(idx: int) -> Seq<int> {
    Seq::new(12, |k: int| if k < 8 { perm_decoded(8, idx)[k] } else { k })
}

/// The corner arrangement an F2L coordinate decodes to: positions 0..4
/// permute corners 0..4 and the D-layer corners are solved.
pub open spec fn cp_f2l_decoded(idx: int) -> Seq<int> {
    Seq::new(8, |k: int| if k < 4 { perm_decoded(4, idx)[k] } else { k })
}

/// The edge arrangement an F2L edge coordinate decodes to: the E slice and
/// D layer are solved and positions 4..8 permute edges 4..8.
pub open spec fn ep_f2l_decoded(idx: int) -> Seq<int> {
    Seq::new(
        12,
        |k: int|
            if k < 4 {
                k
            } else if k < 8 {
                perm_decoded(4, idx)[k - 4] + 4
            } else {
                k
            },
    )
}

/// The edge orientations a cross coordinate decodes to: seven digits and a
/// completion over the first eight positions, zero elsewhere.
pub open spec fn eo_cross_decoded(idx: int) -> Seq<int> {
    Seq::new(12, |k: int| if k < 8 { ori_decoded(2, 7, idx)[k] } else { 0 })
}

/// The corner orientations an F2L coordinate decodes to: three digits and a
/// completion over the first four positions, zero elsewhere.
pub open spec fn co_f2l_decoded(idx: int) -> Seq<int> {
    Seq::new(8, |k: int| if k < 4 { ori_decoded(3, 3, idx)[k] } else { 0 })
}

/// The edge orientations an F2L coordinate decodes to: three digits and a
/// completion over positions 4..8, zero elsewhere.
pub open spec fn eo_f2l_decoded(idx: int) -> Seq<int> {
    Seq::new(12, |k: int| if 4 <= k < 8 { ori_decoded(2, 3, idx)[k - 4] } else { 0 })
}

/// The corner-permutation coordinate: Lehmer rank of the eight corners.
pub fn cp_to_index(cp: &[Corner; 8]) -> (r: u16)
    ensures
        r as int == lehmer_rank(corner_ints(cp@)),
        r < 40320,
{
    let mut vals: Vec<u8> = Vec::new();
    for i in 0..8
        invariant
            vals@.len() == i,
            forall|k: int| 0 <= k < i ==> ints(vals@)[k] == corner_ints(cp@)[k],
    {
        let ghost prev = vals@;
        vals.push(cp[i].index() as u8);
        proof {
            assert forall|k: int| 0 <= k < i + 1 implies ints(vals@)[k] == corner_ints(cp@)[k] by {
                if k < i {
                    assert(ints(prev)[k] == corner_ints(cp@)[k]);
                }
                assert(ints(vals@)[k] == vals@[k] as int);
            }
        }
    }
    proof {
        assert(ints(vals@) =~= corner_ints(cp@));
    }
    let r = slice_to_index(vals.as_slice());
    proof {
        lemma_lehmer_rank_bound(corner_ints(cp@));
        lemma_fact_12();
    }
    r as u16
}

/// Decode a corner-permutation coordinate.
pub fn index_to_cp(index: u16) -> (r: [Corner; 8])
    requires
        index < 40320,
    ensures
        corner_ints(r@) == cp_decoded(index as int),
        no_dups(corner_ints(r@)),
{
    let v = fill_perm_slice(8, index as usize, 0);
    let mut r: [Corner; 8] = [Corner::UBL; 8];
    for i in 0..8
        invariant
            v@.len() == 8,
            ints(v@) == add_off(perm_decoded(8, index as int), 0),
            forall|k: int| 0 <= k < 8 ==> 0 <= #[trigger] ints(v@)[k] < 8,
            forall|k: int| 0 <= k < i ==> corner_ints(r@)[k] == ints(v@)[k],
    {
        let ghost prev = r@;
        proof {
            assert(ints(v@)[i as int] == v@[i as int] as int);
        }
        r[i] = Corner::from_index(v[i]);
        proof {
            assert forall|k: int| 0 <= k < i + 1 implies corner_ints(r@)[k] == ints(v@)[k] by {
                if k < i {
                    assert(corner_ints(prev)[k] == ints(v@)[k]);
                    assert(r@[k] == prev[k]);
                }
            }
        }
    }
    proof {
        assert(add_off(perm_decoded(8, index as int), 0) =~= perm_decoded(8, index as int));
        assert(corner_ints(r@) =~= ints(v@));
        lemma_perm_decoded_props(8, index as int);
    }
    r
}

/// The full edge-permutation coordinate: Lehmer rank of the twelve edges.
pub fn ep_to_index(ep: &[Edge; 12]) -> (r: u32)
    ensures
        r as int == lehmer_rank(edge_ints(ep@)),
        r < 479001600,
{
    let mut vals: Vec<u8> = Vec::new();
    for i in 0..12
        invariant
            vals@.len() == i,
            forall|k: int| 0 <= k < i ==> ints(vals@)[k] == edge_ints(ep@)[k],
    {
        let ghost prev = vals@;
        vals.push(ep[i].index() as u8);
        proof {
            assert forall|k: int| 0 <= k < i + 1 implies ints(vals@)[k] == edge_ints(ep@)[k] by {
                if k < i {
                    assert(ints(prev)[k] == edge_ints(ep@)[k]);
                }
                assert(ints(vals@)[k] == vals@[k] as int);
            }
        }
    }
    proof {
        assert(ints(vals@) =~= edge_ints(ep@));
    }
    let r = slice_to_index(vals.as_slice());
    r as u32
}

/// Decode a full edge-permutation coordinate.
pub fn index_to_ep(index: u32) -> (r: [Edge; 12])
    requires
        index < 479001600,
    ensures
        edge_ints(r@) == ep_decoded(index as int),
        no_dups(edge_ints(r@)),
{
    let v = fill_perm_slice(12, index as usize, 0);
    let mut r: [Edge; 12] = [Edge::BL; 12];
    for i in 0..12
        invariant
            v@.len() == 12,
            ints(v@) == add_off(perm_decoded(12, index as int), 0),
            forall|k: int| 0 <= k < 12 ==> 0 <= #[trigger] ints(v@)[k] < 12,
            forall|k: int| 0 <= k < i ==> edge_ints(r@)[k] == ints(v@)[k],
    {
        let ghost prev = r@;
        proof {
            assert(ints(v@)[i as int] == v@[i as int] as int);
        }
        r[i] = Edge::from_index(v[i]);
        proof {
            assert forall|k: int| 0 <= k < i + 1 implies edge_ints(r@)[k] == ints(v@)[k] by {
                if k < i {
                    assert(edge_ints(prev)[k] == ints(v@)[k]);
                    assert(r@[k] == prev[k]);
                }
            }
        }
    }
    proof {
        assert(add_off(perm_decoded(12, index as int), 0) =~= perm_decoded(12, index as int));
        assert(edge_ints(r@) =~= ints(v@));
        lemma_perm_decoded_props(12, index as int);
    }
    r
}

/// The UD-edge coordinate: Lehmer rank of the eight non-E edges among
/// themselves. Meaningful once phase 1 has parked the E-slice edges.
pub fn ud_ep_to_index(ep: &[Edge; 12]) -> (r: u16)
    ensures
        r as int == lehmer_rank(edge_ints(ep@).subrange(4, 12)),
        r < 40320,
{
    let mut vals: Vec<u8> = Vec::new();
    for i in 4..12
        invariant
            vals@.len() == i - 4,
            forall|k: int| 0 <= k < i - 4 ==> ints(vals@)[k] == edge_ints(ep@)[k + 4],
    {
        let ghost prev = vals@;
        vals.push(ep[i].index() as u8);
        proof {
            assert forall|k: int| 0 <= k < i - 3 implies ints(vals@)[k] == edge_ints(ep@)[k + 4] by {
                if k < i - 4 {
                    assert(ints(prev)[k] == edge_ints(ep@)[k + 4]);
                }
                assert(ints(vals@)[k] == vals@[k] as int);
            }
        }
    }
    proof {
        assert(ints(vals@) =~= edge_ints(ep@).subrange(4, 12));
    }
    let r = slice_to_index(vals.as_slice());
    proof {
        lemma_lehmer_rank_bound(edge_ints(ep@).subrange(4, 12));
        lemma_fact_12();
    }
    r as u16
}

/// Decode a UD-edge coordinate onto placeholder E-slice edges.
pub fn index_to_ud_ep(index: u16) -> (r: [Edge; 12])
    requires
        index < 40320,
    ensures
        edge_ints(r@) == ud_ep_decoded(index as int),
{
    let v = fill_perm_slice(8, index as usize, 4);
    let mut r: [Edge; 12] = [Edge::UB; 12];
    for i in 0..8
        invariant
            v@.len() == 8,
            ints(v@) == add_off(perm_decoded(8, index as int), 4),
            forall|k: int| 0 <= k < 8 ==> 4 <= #[trigger] ints(v@)[k] < 12,
            forall|k: int| 0 <= k < 4 ==> edge_ints(r@)[k] == 4,
            forall|k: int| 4 <= k < i + 4 ==> edge_ints(r@)[k] == ints(v@)[k - 4],
    {
        let ghost prev = r@;
        proof {
            assert(ints(v@)[i as int] == v@[i as int] as int);
        }
        r[i + 4] = Edge::from_index(v[i]);
        proof {
            assert forall|k: int| 4 <= k < i + 5 implies edge_ints(r@)[k] == ints(v@)[k - 4] by {
                if k < i + 4 {
                    assert(edge_ints(prev)[k] == ints(v@)[k - 4]);
                    assert(r@[k] == prev[k]);
                }
            }
            assert forall|k: int| 0 <= k < 4 implies edge_ints(r@)[k] == 4 by {
                assert(edge_ints(prev)[k] == 4);
                assert(r@[k] == prev[k]);
            }
        }
    }
    proof {
        lemma_perm_decoded_props(8, index as int);
        assert forall|k: int| 4 <= k < 12 implies edge_ints(r@)[k] == perm_decoded(
            8,
            index as int,
        )[k - 4] + 4 by {
            assert(edge_ints(r@)[k] == ints(v@)[k - 4]);
            assert(ints(v@)[k - 4] == add_off(perm_decoded(8, index as int), 4)[k - 4]);
            assert(add_off(perm_decoded(8, index as int), 4)[k - 4] == perm_decoded(
                8,
                index as int,
            )[k - 4] + 4);
        }
        assert(edge_ints(r@) =~= ud_ep_decoded(index as int));
    }
    r
}

/// The E-slice edge-permutation coordinate: Lehmer rank of the first four
/// positions among themselves.
pub fn e_ep_to_index(ep: &[Edge; 12]) -> (r: u16)
    ensures
        r as int == lehmer_rank(edge_ints(ep@).subrange(0, 4)),
        r < 24,
{
    let mut vals: Vec<u8> = Vec::new();
    for i in 0..4
        invariant
            vals@.len() == i,
            forall|k: int| 0 <= k < i ==> ints(vals@)[k] == edge_ints(ep@)[k],
    {
        let ghost prev = vals@;
        vals.push(ep[i].index() as u8);
        proof {
            assert forall|k: int| 0 <= k < i + 1 implies ints(vals@)[k] == edge_ints(ep@)[k] by {
                if k < i {
                    assert(ints(prev)[k] == edge_ints(ep@)[k]);
                }
                assert(ints(vals@)[k] == vals@[k] as int);
            }
        }
    }
    proof {
        assert(ints(vals@) =~= edge_ints(ep@).subrange(0, 4));
    }
    let r = slice_to_index(vals.as_slice());
    proof {
        lemma_lehmer_rank_bound(edge_ints(ep@).subrange(0, 4));
        lemma_fact_12();
    }
    r as u16
}

/// Decode an E-slice edge coordinate onto placeholder UD edges.
pub fn index_to_e_ep(index: u16) -> (r: [Edge; 12])
    requires
        index < 24,
    ensures
        edge_ints(r@) == e_ep_decoded(index as int),
{
    let v = fill_perm_slice(4, index as usize, 0);
    let mut r: [Edge; 12] = [Edge::BL; 12];
    for i in 0..4
        invariant
            v@.len() == 4,
            ints(v@) == add_off(perm_decoded(4, index as int), 0),
            forall|k: int| 0 <= k < 4 ==> 0 <= #[trigger] ints(v@)[k] < 4,
            forall|k: int| 4 <= k < 12 ==> edge_ints(r@)[k] == 0,
            forall|k: int| 0 <= k < i ==> edge_ints(r@)[k] == ints(v@)[k],
    {
        let ghost prev = r@;
        proof {
            assert(ints(v@)[i as int] == v@[i as int] as int);
        }
        r[i] = Edge::from_index(v[i]);
        proof {
            assert forall|k: int| 0 <= k < i + 1 implies edge_ints(r@)[k] == ints(v@)[k] by {
                if k < i {
                    assert(edge_ints(prev)[k] == ints(v@)[k]);
                    assert(r@[k] == prev[k]);
                }
            }
            assert forall|k: int| 4 <= k < 12 implies edge_ints(r@)[k] == 0 by {
                assert(edge_ints(prev)[k] == 0);
                assert(r@[k] == prev[k]);
            }
        }
    }
    proof {
        assert(add_off(perm_decoded(4, index as int), 0) =~= perm_decoded(4, index as int));
        assert(edge_ints(r@) =~= e_ep_decoded(index as int));
    }
    r
}

/// Decode a cross coordinate: the first eight edges permuted, the D layer
/// solved.
pub fn index_to_ep_cross(index: u16) -> (r: [Edge; 12])
    requires
        index < 40320,
    ensures
        edge_ints(r@) == ep_cross_decoded(index as int),
{
    let v = fill_perm_slice(8, index as usize, 0);
    let mut r: [Edge; 12] = [
        Edge::BL,
        Edge::BL,
        Edge::BL,
        Edge::BL,
        Edge::BL,
        Edge::BL,
        Edge::BL,
        Edge::BL,
        Edge::DF,
        Edge::DR,
        Edge::DB,
        Edge::DL,
    ];
    for i in 0..8
        invariant
            v@.len() == 8,
            ints(v@) == add_off(perm_decoded(8, index as int), 0),
            forall|k: int| 0 <= k < 8 ==> 0 <= #[trigger] ints(v@)[k] < 8,
            forall|k: int| 8 <= k < 12 ==> edge_ints(r@)[k] == k,
            forall|k: int| 0 <= k < i ==> edge_ints(r@)[k] == ints(v@)[k],
    {
        let ghost prev = r@;
        proof {
            assert(ints(v@)[i as int] == v@[i as int] as int);
        }
        r[i] = Edge::from_index(v[i]);
        proof {
            assert forall|k: int| 0 <= k < i + 1 implies edge_ints(r@)[k] == ints(v@)[k] by {
                if k < i {
                    assert(edge_ints(prev)[k] == ints(v@)[k]);
                    assert(r@[k] == prev[k]);
                }
            }
            assert forall|k: int| 8 <= k < 12 implies edge_ints(r@)[k] == k by {
                assert(edge_ints(prev)[k] == k);
                assert(r@[k] == prev[k]);
            }
        }
    }
    proof {
        assert(add_off(perm_decoded(8, index as int), 0) =~= perm_decoded(8, index as int));
        assert(edge_ints(r@) =~= ep_cross_decoded(index as int));
    }
    r
}

/// Decode an F2L corner coordinate: the U-layer corners permuted, the D
/// layer solved.
pub fn index_to_cp_f2l(index: u16) -> (r: [Corner; 8])
    requires
        index < 24,
    ensures
        corner_ints(r@) == cp_f2l_decoded(index as int),
{
    let v = fill_perm_slice(4, index as usize, 0);
    let mut r: [Corner; 8] = [
        Corner::UBL,
        Corner::UBL,
        Corner::UBL,
        Corner::UBL,
        Corner::DFL,
        Corner::DFR,
        Corner::DBR,
        Corner::DBL,
    ];
    for i in 0..4
        invariant
            v@.len() == 4,
            ints(v@) == add_off(perm_decoded(4, index as int), 0),
            forall|k: int| 0 <= k < 4 ==> 0 <= #[trigger] ints(v@)[k] < 4,
            forall|k: int| 4 <= k < 8 ==> corner_ints(r@)[k] == k,
            forall|k: int| 0 <= k < i ==> corner_ints(r@)[k] == ints(v@)[k],
    {
        let ghost prev = r@;
        proof {
            assert(ints(v@)[i as int] == v@[i as int] as int);
        }
        r[i] = Corner::from_index(v[i]);
        proof {
            assert forall|k: int| 0 <= k < i + 1 implies corner_ints(r@)[k] == ints(v@)[k] by {
                if k < i {
                    assert(corner_ints(prev)[k] == ints(v@)[k]);
                    assert(r@[k] == prev[k]);
                }
            }
            assert forall|k: int| 4 <= k < 8 implies corner_ints(r@)[k] == k by {
                assert(corner_ints(prev)[k] == k);
                assert(r@[k] == prev[k]);
            }
        }
    }
    proof {
        assert(add_off(perm_decoded(4, index as int), 0) =~= perm_decoded(4, index as int));
        assert(corner_ints(r@) =~= cp_f2l_decoded(index as int));
    }
    r
}

/// Decode an F2L edge coordinate: the U-layer edges permuted, the E slice
/// and D layer solved.
pub fn index_to_ep_f2l(index: u16) -> (r: [Edge; 12])
    requires
        index < 24,
    ensures
        edge_ints(r@) == ep_f2l_decoded(index as int),
{
    let v = fill_perm_slice(4, index as usize, 4);
    let mut r: [Edge; 12] = [
        Edge::BL,
        Edge::BR,
        Edge::FR,
        Edge::FL,
        Edge::UB,
        Edge::UB,
        Edge::UB,
        Edge::UB,
        Edge::DF,
        Edge::DR,
        Edge::DB,
        Edge::DL,
    ];
    for i in 0..4
        invariant
            v@.len() == 4,
            ints(v@) == add_off(perm_decoded(4, index as int), 4),
            forall|k: int| 0 <= k < 4 ==> 4 <= #[trigger] ints(v@)[k] < 8,
            forall|k: int| 0 <= k < 4 ==> edge_ints(r@)[k] == k,
            forall|k: int| 8 <= k < 12 ==> edge_ints(r@)[k] == k,
            forall|k: int| 4 <= k < i + 4 ==> edge_ints(r@)[k] == ints(v@)[k - 4],
    {
        let ghost prev = r@;
        proof {
            assert(ints(v@)[i as int] == v@[i as int] as int);
        }
        r[i + 4] = Edge::from_index(v[i]);
        proof {
            assert forall|k: int| 4 <= k < i + 5 implies edge_ints(r@)[k] == ints(v@)[k - 4] by {
                if k < i + 4 {
                    assert(edge_ints(prev)[k] == ints(v@)[k - 4]);
                    assert(r@[k] == prev[k]);
                }
            }
            assert forall|k: int| 0 <= k < 4 implies edge_ints(r@)[k] == k by {
                assert(edge_ints(prev)[k] == k);
                assert(r@[k] == prev[k]);
            }
            assert forall|k: int| 8 <= k < 12 implies edge_ints(r@)[k] == k by {
                assert(edge_ints(prev)[k] == k);
                assert(r@[k] == prev[k]);
            }
        }
    }
    proof {
        lemma_perm_decoded_props(4, index as int);
        assert forall|k: int| 4 <= k < 8 implies edge_ints(r@)[k] == perm_decoded(
            4,
            index as int,
        )[k - 4] + 4 by {
            assert(edge_ints(r@)[k] == ints(v@)[k - 4]);
            assert(ints(v@)[k - 4] == add_off(perm_decoded(4, index as int), 4)[k - 4]);
            assert(add_off(perm_decoded(4, index as int), 4)[k - 4] == perm_decoded(
                4,
                index as int,
            )[k - 4] + 4);
        }
        assert(edge_ints(r@) =~= ep_f2l_decoded(index as int));
    }
    r
}

/// Decode a cross edge-orientation coordinate.
pub fn index_to_eo_cross(index: u16) -> (r: [u8; 12])
    requires
        index < 128,
    ensures
        ints(r@) == eo_cross_decoded(index as int),
{
    proof {
        lemma_pow2_small();
    }
    let v = fill_orientation_slice(2, 8, index);
    let mut r: [u8; 12] = [0, 0, 0, 0, 0, 0, 0, 0, 0, 0, 0, 0];
    for i in 0..8
        invariant
            v@.len() == 8,
            ints(v@) == ori_decoded(2, 7, index as int),
            forall|k: int| 8 <= k < 12 ==> r@[k] == 0,
            forall|k: int| 0 <= k < i ==> r@[k] == v@[k],
    {
        r[i] = v[i];
    }
    proof {
        assert(ints(r@) =~= eo_cross_decoded(index as int));
    }
    r
}

/// Decode an F2L corner-orientation coordinate.
pub fn index_to_co_f2l(index: u16) -> (r: [u8; 8])
    requires
        index < 27,
    ensures
        ints(r@) == co_f2l_decoded(index as int),
{
    proof {
        assert(powi(3, 3) == 27) by {
            assert(powi(3, 0) == 1);
            assert(powi(3, 1) == 3);
            assert(powi(3, 2) == 9);
        }
    }
    let v = fill_orientation_slice(3, 4, index);
    let mut r: [u8; 8] = [0, 0, 0, 0, 0, 0, 0, 0];
    for i in 0..4
        invariant
            v@.len() == 4,
            ints(v@) == ori_decoded(3, 3, index as int),
            forall|k: int| 4 <= k < 8 ==> r@[k] == 0,
            forall|k: int| 0 <= k < i ==> r@[k] == v@[k],
    {
        r[i] = v[i];
    }
    proof {
        assert(ints(r@) =~= co_f2l_decoded(index as int));
    }
    r
}

/// Decode an F2L edge-orientation coordinate.
pub fn index_to_eo_f2l(index: u16) -> (r: [u8; 12])
    requires
        index < 8,
    ensures
        ints(r@) == eo_f2l_decoded(index as int),
{
    proof {
        lemma_pow2_small();
        assert(powi(2, 3) == 8) by {
            assert(powi(2, 0) == 1);
            assert(powi(2, 1) == 2);
            assert(powi(2, 2) == 4);
        }
    }
    let v = fill_orientation_slice(2, 4, index);
    let mut r: [u8; 12] = [0, 0, 0, 0, 0, 0, 0, 0, 0, 0, 0, 0];
    for i in 0..4
        invariant
            v@.len() == 4,
            ints(v@) == ori_decoded(2, 3, index as int),
            forall|k: int| 0 <= k < 4 ==> r@[k] == 0,
            forall|k: int| 8 <= k < 12 ==> r@[k] == 0,
            forall|k: int| 4 <= k < i + 4 ==> r@[k] == v@[k - 4],
    {
        r[i + 4] = v[i];
    }
    proof {
        assert(ints(r@) =~= eo_f2l_decoded(index as int));
    }
    r
}

/// Binomial coefficient by the Pascal recurrence.
pub open spec fn choose_n(n: int, k: int) -> int
    decreases n,
{
    if n < 0 || k < 0 || k > n {
        0
    } else if k == 0 {
        1
    } else {
        choose_n(n - 1, k - 1) + choose_n(n - 1, k)
    }
}

pub proof fn lemma_choose_nonneg(n: int, k: int)
    ensures
        choose_n(n, k) >= 0,
    decreases n,
{
    if n >= 0 && 0 <= k <= n && k != 0 {
        lemma_choose_nonneg(n - 1, k - 1);
        lemma_choose_nonneg(n - 1, k);
    }
}

proof fn lemma_choose_le_pow2(n: nat, k: int)
    ensures
        choose_n(n as int, k) <= powi(2, n),
    decreases n,
{
    lemma_powi_pos(2, n);
    if n > 0 && 0 <= k <= n && k != 0 {
        lemma_choose_le_pow2((n - 1) as nat, k - 1);
        lemma_choose_le_pow2((n - 1) as nat, k);
        assert(powi(2, n) == 2 * powi(2, (n - 1) as nat));
    }
}

proof fn lemma_pascal_values()
    ensures
        choose_n(12, 4) == 495,
{
    assert(choose_n(0, 0) == 1);
    assert(choose_n(0, 1) == 0);
    assert(choose_n(0, 2) == 0);
    assert(choose_n(0, 3) == 0);
    assert(choose_n(0, 4) == 0);
    assert(choose_n(0, 5) == 0);
    assert(choose_n(1, 0) == 1);
    assert(choose_n(1, 1) == 1);
    assert(choose_n(1, 2) == 0);
    assert(choose_n(1, 3) == 0);
    assert(choose_n(1, 4) == 0);
    assert(choose_n(1, 5) == 0);
    assert(choose_n(2, 0) == 1);
    assert(choose_n(2, 1) == 2);
    assert(choose_n(2, 2) == 1);
    assert(choose_n(2, 3) == 0);
    assert(choose_n(2, 4) == 0);
    assert(choose_n(2, 5) == 0);
    assert(choose_n(3, 0) == 1);
    assert(choose_n(3, 1) == 3);
    assert(choose_n(3, 2) == 3);
    assert(choose_n(3, 3) == 1);
    assert(choose_n(3, 4) == 0);
    assert(choose_n(3, 5) == 0);
    assert(choose_n(4, 0) == 1);
    assert(choose_n(4, 1) == 4);
    assert(choose_n(4, 2) == 6);
    assert(choose_n(4, 3) == 4);
    assert(choose_n(4, 4) == 1);
    assert(choose_n(4, 5) == 0);
    assert(choose_n(5, 0) == 1);
    assert(choose_n(5, 1) == 5);
    assert(choose_n(5, 2) == 10);
    assert(choose_n(5, 3) == 10);
    assert(choose_n(5, 4) == 5);
    assert(choose_n(5, 5) == 1);
    assert(choose_n(6, 0) == 1);
    assert(choose_n(6, 1) == 6);
    assert(choose_n(6, 2) == 15);
    assert(choose_n(6, 3) == 20);
    assert(choose_n(6, 4) == 15);
    assert(choose_n(6, 5) == 6);
    assert(choose_n(7, 0) == 1);
    assert(choose_n(7, 1) == 7);
    assert(choose_n(7, 2) == 21);
    assert(choose_n(7, 3) == 35);
    assert(choose_n(7, 4) == 35);
    assert(choose_n(7, 5) == 21);
    assert(choose_n(8, 0) == 1);
    assert(choose_n(8, 1) == 8);
    assert(choose_n(8, 2) == 28);
    assert(choose_n(8, 3) == 56);
    assert(choose_n(8, 4) == 70);
    assert(choose_n(8, 5) == 56);
    assert(choose_n(9, 0) == 1);
    assert(choose_n(9, 1) == 9);
    assert(choose_n(9, 2) == 36);
    assert(choose_n(9, 3) == 84);
    assert(choose_n(9, 4) == 126);
    assert(choose_n(9, 5) == 126);
    assert(choose_n(10, 0) == 1);
    assert(choose_n(10, 1) == 10);
    assert(choose_n(10, 2) == 45);
    assert(choose_n(10, 3) == 120);
    assert(choose_n(10, 4) == 210);
    assert(choose_n(10, 5) == 252);
    assert(choose_n(11, 0) == 1);
    assert(choose_n(11, 1) == 11);
    assert(choose_n(11, 2) == 55);
    assert(choose_n(11, 3) == 165);
    assert(choose_n(11, 4) == 330);
    assert(choose_n(11, 5) == 462);
    assert(choose_n(12, 0) == 1);
    assert(choose_n(12, 1) == 12);
    assert(choose_n(12, 2) == 66);
    assert(choose_n(12, 3) == 220);
    assert(choose_n(12, 4) == 495);
    assert(choose_n(12, 5) == 792);
}

/// Which positions hold an E-slice edge.
pub open spec fn e_occ(s: Seq<Edge>) -> Seq<bool> {
    Seq::new(s.len(), |i: int| s[i].idx() <= 3)
}

/// Which positions of a plain sequence hold an E-slice value.
pub open spec fn occ_ints(s: Seq<int>) -> Seq<bool> {
    Seq::new(s.len(), |i: int| s[i] <= 3)
}

/// How many of the first `i` positions are occupied.
pub open spec fn count_true(occ: Seq<bool>, i: int) -> int
    decreases i,
{
    if i <= 0 {
        0
    } else {
        count_true(occ, i - 1) + if occ[i - 1] {
            1int
        } else {
            0int
        }
    }
}

/// The colex rank of the occupied set, scanned from the top with `k`
/// counting down.
pub open spec fn combo_rank(occ: Seq<bool>, i: int, k: int) -> int
    decreases i,
{
    if i <= 0 {
        0
    } else if occ[i - 1] {
        choose_n(i - 1, k) + combo_rank(occ, i - 1, k - 1)
    } else {
        combo_rank(occ, i - 1, k)
    }
}

pub proof fn lemma_count_true_nonneg(occ: Seq<bool>, i: int)
    ensures
        count_true(occ, i) >= 0,
    decreases i,
{
    if i > 0 {
        lemma_count_true_nonneg(occ, i - 1);
    }
}

/// The rank of a set with exactly `k` members among the first `i`
/// positions is below `C(i, k)`.
pub proof fn lemma_combo_rank_bound(occ: Seq<bool>, i: int, k: int)
    requires
        i >= 0,
        count_true(occ, i) == k,
    ensures
        0 <= combo_rank(occ, i, k) < choose_n(i, k),
    decreases i,
{
    lemma_count_true_nonneg(occ, i);
    if i == 0 {
        assert(choose_n(0, 0) == 1);
    } else if occ[i - 1] {
        lemma_combo_rank_bound(occ, i - 1, k - 1);
        lemma_choose_nonneg(i - 1, k - 1);
        lemma_choose_nonneg(i - 1, k);
        lemma_count_true_nonneg(occ, i - 1);
        assert(choose_n(i, k) == choose_n(i - 1, k - 1) + choose_n(i - 1, k));
    } else {
        lemma_combo_rank_bound(occ, i - 1, k);
        lemma_choose_nonneg(i - 1, k - 1);
        lemma_count_true_nonneg(occ, i - 1);
        if k <= i - 1 {
            assert(choose_n(i, k) == choose_n(i - 1, k - 1) + choose_n(i - 1, k));
        }
    }
}

/// Binomial coefficients, by the Pascal rows.
pub fn calculate_combo(n: u8, k: u8) -> (r: u16)
    requires
        n <= 12,
    ensures
        r as int == choose_n(n as int, k as int),
{
    if k > n {
        return 0;
    }
    let mut row: Vec<u16> = Vec::new();
    row.push(1);
    proof {
        assert(choose_n(0, 0) == 1);
        assert(powi(2, 12) == 4096) by {
            lemma_pow2_small();
            assert(powi(2, 12) == 2 * powi(2, 11));
        }
    }
    let nn = n as usize;
    for i in 1..(nn + 1)
        invariant
            nn <= 12,
            row@.len() == i,
            forall|j: int| 0 <= j < i ==> row@[j] as int == choose_n(i - 1, j),
            forall|j: int| 0 <= j < i ==> row@[j] <= 4096,
            powi(2, 12) == 4096,
    {
        let mut next: Vec<u16> = Vec::new();
        next.push(1);
        proof {
            assert(choose_n(i as int, 0) == 1);
        }
        for j in 1..i
            invariant
                nn <= 12,
                i <= nn,
                row@.len() == i,
                next@.len() == j,
                forall|t: int| 0 <= t < i ==> row@[t] as int == choose_n(i - 1, t),
                forall|t: int| 0 <= t < i ==> row@[t] <= 4096,
                forall|t: int| 0 <= t < j ==> next@[t] as int == choose_n(i as int, t),
                forall|t: int| 0 <= t < j ==> next@[t] <= 4096,
                powi(2, 12) == 4096,
        {
            let v = row[j - 1] + row[j];
            proof {
                assert(v as int == choose_n(i - 1, j - 1) + choose_n(i - 1, j as int));
                assert(choose_n(i as int, j as int) == choose_n(i - 1, j - 1) + choose_n(
                    i - 1,
                    j as int,
                ));
                lemma_choose_le_pow2(i as nat, j as int);
                lemma_powi_increases(2, i as nat, 12);
            }
            next.push(v);
        }
        let ghost prev_next = next@;
        next.push(1);
        proof {
            assert(choose_n(i as int, i as int) == choose_n(i - 1, i - 1) + choose_n(
                i - 1,
                i as int,
            ));
            assert(choose_n(i - 1, i as int) == 0);
            assert(row@[i - 1] as int == choose_n(i - 1, i - 1));
            assert(choose_n(i - 1, i - 1) == 1) by {
                lemma_choose_diag(i - 1);
            }
            assert forall|t: int| 0 <= t < i + 1 implies next@[t] as int == choose_n(
                i as int,
                t,
            ) by {
                if t < i {
                    assert(prev_next[t] as int == choose_n(i as int, t));
                }
            }
        }
        row = next;
    }
    row[k as usize]
}

proof fn lemma_choose_diag(n: int)
    ensures
        n >= 0 ==> choose_n(n, n) == 1,
    decreases n,
{
    if n > 0 {
        lemma_choose_diag(n - 1);
        assert(choose_n(n - 1, n) == 0);
    }
}

/// The E-combination coordinate: the colex rank of the set of positions
/// currently occupied by E-slice edges. Defined for arrangements holding
/// exactly four E-slice edges.
pub fn e_combo_to_index(edge: &[Edge; 12]) -> (r: u16)
    requires
        count_true(e_occ(edge@), 12) == 4,
    ensures
        r as int == combo_rank(e_occ(edge@), 12, 4),
        r < 495,
{
    let ghost occ = e_occ(edge@);
    let mut index: u16 = 0;
    let mut k: u8 = 4;
    let mut i: usize = 12;
    proof {
        assert(powi(2, 12) == 4096) by {
            lemma_pow2_small();
            assert(powi(2, 12) == 2 * powi(2, 11));
        }
        lemma_combo_rank_bound(occ, 12, 4);
        lemma_choose_le_pow2(12, 4);
    }
    while i > 0
        invariant
            occ == e_occ(edge@),
            count_true(occ, 12) == 4,
            i <= 12,
            k as int == count_true(occ, i as int),
            index as int == combo_rank(occ, 12, 4) - combo_rank(occ, i as int, k as int),
            0 <= combo_rank(occ, 12, 4) < 4096,
            0 <= combo_rank(occ, i as int, k as int),
            powi(2, 12) == 4096,
        decreases i,
    {
        i = i - 1;
        proof {
            assert(occ[i as int] == (edge@[i as int].idx() <= 3));
            lemma_count_true_nonneg(occ, i as int);
        }
        if edge[i].index() <= 3 {
            let c = calculate_combo(i as u8, k);
            proof {
                assert(occ[i as int]);
                assert(count_true(occ, i + 1) == count_true(occ, i as int) + 1);
                assert(combo_rank(occ, i + 1, count_true(occ, i + 1)) == choose_n(
                    i as int,
                    count_true(occ, i + 1),
                ) + combo_rank(occ, i as int, count_true(occ, i as int)));
                lemma_combo_rank_bound(occ, i as int, count_true(occ, i as int));
                lemma_choose_nonneg(i as int, k as int);
                lemma_combo_rank_bound(occ, 12, 4);
            }
            index = index + c;
            k = k - 1;
        } else {
            proof {
                assert(!occ[i as int]);
                assert(count_true(occ, i + 1) == count_true(occ, i as int));
                assert(combo_rank(occ, i + 1, k as int) == combo_rank(occ, i as int, k as int));
                lemma_combo_rank_bound(occ, i as int, k as int);
            }
        }
    }
    proof {
        assert(combo_rank(occ, 0, 0) == 0);
        lemma_combo_rank_bound(occ, 12, 4);
        lemma_pascal_values();
    }
    index
}

/// The edge values an E-combination decode produces for the first `i`
/// positions, with `k` E-slice markers still to place and `idx` the rank
/// still unaccounted for: occupied positions receive the markers `3, 2, 1,
/// 0` from the top, the rest a placeholder.
pub open spec fn combo_decode_rec(i: nat, k: int, idx: int) -> Seq<int>
    decreases i,
{
    if i == 0 {
        Seq::empty()
    } else {
        let c = choose_n(i - 1, k);
        if idx >= c {
            combo_decode_rec((i - 1) as nat, k - 1, idx - c).push(k - 1)
        } else {
            combo_decode_rec((i - 1) as nat, k, idx).push(4)
        }
    }
}

/// The edge values an E-combination coordinate decodes to.
pub open spec fn combo_decoded(idx: int) -> Seq<int> {
    combo_decode_rec(12, 4, idx)
}

proof fn lemma_combo_decode_len(i: nat, k: int, idx: int)
    ensures
        combo_decode_rec(i, k, idx).len() == i,
    decreases i,
{
    if i > 0 {
        let c = choose_n(i - 1, k);
        if idx >= c {
            lemma_combo_decode_len((i - 1) as nat, k - 1, idx - c);
        } else {
            lemma_combo_decode_len((i - 1) as nat, k, idx);
        }
    }
}

/// Decoding a rank below `C(i, k)` places exactly `k` markers, each below
/// 4, and ranking the result gives the rank back.
pub proof fn lemma_combo_decode_props(i: nat, k: int, idx: int)
    requires
        0 <= k <= 4,
        0 <= idx < choose_n(i as int, k),
    ensures
        combo_decode_rec(i, k, idx).len() == i,
        forall|t: int|
            0 <= t < i ==> 0 <= #[trigger] combo_decode_rec(i, k, idx)[t] <= 4,
        count_true(occ_ints(combo_decode_rec(i, k, idx)), i as int) == k,
        combo_rank(occ_ints(combo_decode_rec(i, k, idx)), i as int, k) == idx,
    decreases i,
{
    let s = combo_decode_rec(i, k, idx);
    lemma_combo_decode_len(i, k, idx);
    if i == 0 {
        assert(choose_n(0, k) == if k == 0 { 1int } else { 0int });
        assert(k == 0);
        assert(count_true(occ_ints(s), 0) == 0);
    } else {
        let c = choose_n(i - 1, k);
        lemma_choose_nonneg(i - 1, k);
        lemma_choose_nonneg(i - 1, k - 1);
        assert(choose_n(i as int, k) == if k == 0 { 1int } else {
            choose_n(i - 1, k - 1) + choose_n(i - 1, k)
        }) by {
            if k > 0 {
                if k > i {
                    assert(choose_n(i as int, k) == 0);
                    assert(false);
                }
            }
        }
        if idx >= c {
            let rest = combo_decode_rec((i - 1) as nat, k - 1, idx - c);
            assert(k >= 1) by {
                if k == 0 {
                    assert(choose_n(i as int, 0) == 1);
                    assert(idx == 0);
                    assert(choose_n(i - 1, 0) == 1);
                }
            }
            assert(idx - c < choose_n(i - 1, k - 1));
            lemma_combo_decode_props((i - 1) as nat, k - 1, idx - c);
            assert(s == rest.push(k - 1));
            assert(occ_ints(s)[i - 1] == true);
            lemma_occ_prefix(rest, s, (i - 1) as nat);
            assert(count_true(occ_ints(s), i as int) == count_true(occ_ints(s), i - 1) + 1);
            lemma_count_prefix(occ_ints(rest), occ_ints(s), i - 1);
            lemma_rank_prefix(occ_ints(rest), occ_ints(s), i - 1, k - 1);
            assert(combo_rank(occ_ints(s), i as int, k) == choose_n(i - 1, k) + combo_rank(
                occ_ints(s),
                i - 1,
                k - 1,
            ));
        } else {
            let rest = combo_decode_rec((i - 1) as nat, k, idx);
            lemma_combo_decode_props((i - 1) as nat, k, idx);
            assert(s == rest.push(4));
            assert(occ_ints(s)[i - 1] == false);
            lemma_occ_prefix(rest, s, (i - 1) as nat);
            lemma_count_prefix(occ_ints(rest), occ_ints(s), i - 1);
            lemma_rank_prefix(occ_ints(rest), occ_ints(s), i - 1, k);
        }
    }
}

/// Two occupancy views that agree on a prefix rank and count alike there.
proof fn lemma_occ_prefix(rest: Seq<int>, s: Seq<int>, m: nat)
    requires
        rest.len() == m,
        s.len() == m + 1,
        forall|t: int| 0 <= t < m ==> s[t] == rest[t],
    ensures
        forall|t: int| 0 <= t < m ==> occ_ints(s)[t] == occ_ints(rest)[t],
{
}

proof fn lemma_count_prefix(a: Seq<bool>, b: Seq<bool>, i: int)
    requires
        0 <= i <= a.len(),
        i <= b.len(),
        forall|t: int| 0 <= t < i ==> a[t] == b[t],
    ensures
        count_true(a, i) == count_true(b, i),
    decreases i,
{
    if i > 0 {
        lemma_count_prefix(a, b, i - 1);
    }
}

proof fn lemma_rank_prefix(a: Seq<bool>, b: Seq<bool>, i: int, k: int)
    requires
        0 <= i <= a.len(),
        i <= b.len(),
        forall|t: int| 0 <= t < i ==> a[t] == b[t],
    ensures
        combo_rank(a, i, k) == combo_rank(b, i, k),
    decreases i,
{
    if i > 0 {
        lemma_rank_prefix(a, b, i - 1, k - 1);
        lemma_rank_prefix(a, b, i - 1, k);
    }
}

/// Decode an E-combination coordinate: the four occupied positions receive
/// distinct E-slice edges from the top down, every other position a UB
/// placeholder.
pub fn index_to_e_combo(index: u16) -> (r: [Edge; 12])
    requires
        index < 495,
    ensures
        edge_ints(r@) == combo_decoded(index as int),
        count_true(e_occ(r@), 12) == 4,
        combo_rank(e_occ(r@), 12, 4) == index,
{
    let mut combo: [u8; 12] = [4, 4, 4, 4, 4, 4, 4, 4, 4, 4, 4, 4];
    let mut k: u8 = 4;
    let mut index = index;
    let ghost idx0 = index as int;
    let mut i: usize = 12;
    proof {
        lemma_pascal_values();
        lemma_combo_decode_props(12, 4, idx0);
    }
    while i > 0
        invariant
            0 <= idx0 < 495,
            choose_n(12, 4) == 495,
            i <= 12,
            k <= 4,
            combo@.len() == 12,
            0 <= (index as int) && (index as int) < choose_n(i as int, k as int),
            combo_decode_rec(i as nat, k as int, index as int) == combo_decoded(idx0).take(
                i as int,
            ),
            forall|t: int| i <= t < 12 ==> ints(combo@)[t] == combo_decoded(idx0)[t],
            forall|t: int| 0 <= t < i ==> combo@[t] == 4,
            forall|t: int|
                0 <= t < 12 ==> 0 <= #[trigger] combo_decoded(idx0)[t] <= 4,
            combo_decoded(idx0).len() == 12,
        decreases i,
    {
        i = i - 1;
        let c = calculate_combo(i as u8, k);
        let ghost cd = combo_decode_rec((i + 1) as nat, k as int, index as int);
        proof {
            lemma_combo_decode_len((i + 1) as nat, k as int, index as int);
            lemma_choose_nonneg(i as int, k as int);
        }
        let ghost prev = combo@;
        if index >= c {
            proof {
                assert(k >= 1) by {
                    if k == 0 {
                        assert(choose_n(i + 1, 0) == 1);
                        assert(index as int == 0);
                        assert(choose_n(i as int, 0) == 1);
                    }
                }
                assert(cd == combo_decode_rec(i as nat, k - 1, index as int - c as int).push(
                    k - 1,
                ));
                assert(cd[i as int] == k - 1);
                assert(combo_decoded(idx0).take(i + 1)[i as int] == combo_decoded(idx0)[i as int]);
                assert(combo_decoded(idx0)[i as int] == k - 1);
                assert(combo_decode_rec(i as nat, k - 1, index as int - c as int) =~= combo_decoded(
                    idx0,
                ).take(i as int)) by {
                    assert(cd.drop_last() =~= combo_decode_rec(
                        i as nat,
                        k - 1,
                        index as int - c as int,
                    ));
                    assert(combo_decoded(idx0).take(i + 1).drop_last() =~= combo_decoded(
                        idx0,
                    ).take(i as int));
                }
                assert(choose_n(i + 1, k as int) == choose_n(i as int, k - 1) + choose_n(
                    i as int,
                    k as int,
                )) by {
                    if k as int > i + 1 {
                        assert(choose_n(i + 1, k as int) == 0);
                        assert(false);
                    }
                }
            }
            combo[i] = k - 1;
            index = index - c;
            k = k - 1;
            proof {
                assert forall|t: int| i <= t < 12 implies ints(combo@)[t] == combo_decoded(
                    idx0,
                )[t] by {
                    if t > i {
                        assert(ints(prev)[t] == combo_decoded(idx0)[t]);
                        assert(combo@[t] == prev[t]);
                    } else {
                        assert(combo@[t] == (k as u8));
                    }
                }
            }
        } else {
            proof {
                assert(cd == combo_decode_rec(i as nat, k as int, index as int).push(4));
                assert(cd[i as int] == 4);
                assert(combo_decoded(idx0)[i as int] == 4);
                assert(combo_decode_rec(i as nat, k as int, index as int) =~= combo_decoded(
                    idx0,
                ).take(i as int)) by {
                    assert(cd.drop_last() =~= combo_decode_rec(i as nat, k as int, index as int));
                    assert(combo_decoded(idx0).take(i + 1).drop_last() =~= combo_decoded(
                        idx0,
                    ).take(i as int));
                }
                assert(ints(combo@)[i as int] == 4);
                assert forall|t: int| i <= t < 12 implies ints(combo@)[t] == combo_decoded(
                    idx0,
                )[t] by {
                    if t > i {
                        assert(ints(prev)[t] == combo_decoded(idx0)[t]);
                    }
                }
            }
        }
    }
    let mut r: [Edge; 12] = [Edge::UB; 12];
    let ghost decoded = combo_decoded(idx0);
    for i in 0..12
        invariant
            combo@.len() == 12,
            decoded == combo_decoded(idx0),
            decoded.len() == 12,
            forall|t: int| 0 <= t < 12 ==> ints(combo@)[t] == decoded[t],
            forall|t: int| 0 <= t < 12 ==> 0 <= #[trigger] decoded[t] <= 4,
            forall|t: int| 0 <= t < i ==> edge_ints(r@)[t] == decoded[t],
    {
        let ghost prev = r@;
        proof {
            assert(ints(combo@)[i as int] == combo@[i as int] as int);
            assert(ints(combo@)[i as int] == decoded[i as int]);
            assert(decoded[i as int] <= 4);
            assert(combo@[i as int] < 12);
        }
        r[i] = Edge::from_index(combo[i]);
        proof {
            assert forall|t: int| 0 <= t < i + 1 implies edge_ints(r@)[t] == decoded[t] by {
                if t < i {
                    assert(edge_ints(prev)[t] == decoded[t]);
                    assert(r@[t] == prev[t]);
                }
            }
        }
    }
    proof {
        assert(edge_ints(r@) =~= decoded);
        lemma_combo_decode_props(12, 4, idx0);
        assert(e_occ(r@) =~= occ_ints(combo_decode_rec(12, 4, idx0)));
    }
    r
}

/// `count_true` over a prefix is the cardinality of the set of occupied
/// positions in that prefix.
proof fn lemma_count_true_card(occ: Seq<bool>, i: int)
    requires
        0 <= i,
    ensures
        Set::new(|t: int| 0 <= t < i && occ[t]).finite(),
        count_true(occ, i) == Set::new(|t: int| 0 <= t < i && occ[t]).len(),
    decreases i,
{
    let s = Set::new(|t: int| 0 <= t < i && occ[t]);
    if i == 0 {
        assert(s =~= Set::<int>::empty());
    } else {
        lemma_count_true_card(occ, i - 1);
        let prev = Set::new(|t: int| 0 <= t < i - 1 && occ[t]);
        if occ[i - 1] {
            assert(s =~= prev.insert(i - 1));
            assert(!prev.contains(i - 1));
        } else {
            assert(s =~= prev);
        }
    }
}

/// A duplicate-free sequence of `n` values below `n` hits every value
/// below `n`.
proof fn lemma_perm_hits_all(b: Seq<int>, v: int)
    requires
        b.len() <= 12,
        no_dups(b),
        forall|t: int| 0 <= t < b.len() ==> 0 <= #[trigger] b[t] < b.len(),
        0 <= v < b.len(),
    ensures
        exists|t: int| 0 <= t < b.len() && b[t] == v,
{
    let n = b.len() as int;
    let dom = vstd::set_lib::set_int_range(0, n);
    let f = |t: int| b[t];
    let img = dom.map(f);
    vstd::set_lib::lemma_int_range(0, n);
    assert(vstd::relations::injective_on(f, dom)) by {
        assert forall|x: int, y: int|
            #![trigger dom.contains(x), dom.contains(y)]
            dom.contains(x) && dom.contains(y) && f(x) == f(y) implies x == y by {
            if x < y {
                assert(b[x] != b[y]);
            } else if y < x {
                assert(b[y] != b[x]);
            }
        }
    }
    vstd::set_lib::lemma_map_size(dom, img, f);
    assert(img.subset_of(dom)) by {
        assert forall|p: int| img.contains(p) implies dom.contains(p) by {
            let t = choose|t: int| dom.contains(t) && f(t) == p;
        }
    }
    vstd::set_lib::lemma_subset_equality(img, dom);
    assert(dom.contains(v));
    assert(img.contains(v));
    let t = choose|t: int| dom.contains(t) && f(t) == v;
    assert(0 <= t < n && b[t] == v);
}

/// Rearranging a sequence of flags through a permutation of positions
/// keeps the number of set flags.
pub proof fn lemma_count_true_perm(occa: Seq<bool>, b: Seq<int>, n: int)
    requires
        0 < n <= 12,
        occa.len() == n,
        b.len() == n,
        no_dups(b),
        forall|t: int| 0 <= t < n ==> 0 <= #[trigger] b[t] < n,
    ensures
        count_true(Seq::new(n as nat, |t: int| occa[b[t]]), n) == count_true(occa, n),
{
    let comp = Seq::new(n as nat, |t: int| occa[b[t]]);
    let cset = Set::new(|t: int| 0 <= t < n && comp[t]);
    let aset = Set::new(|t: int| 0 <= t < n && occa[t]);
    lemma_count_true_card(comp, n);
    lemma_count_true_card(occa, n);
    let f = |t: int| b[t];
    assert(vstd::relations::injective_on(f, cset)) by {
        assert forall|x: int, y: int|
            #![trigger cset.contains(x), cset.contains(y)]
            cset.contains(x) && cset.contains(y) && f(x) == f(y) implies x == y by {
            if x < y {
                assert(b[x] != b[y]);
            } else if y < x {
                assert(b[y] != b[x]);
            }
        }
    }
    assert(cset.map(f) =~= aset) by {
        assert forall|p: int| cset.map(f).contains(p) implies aset.contains(p) by {
            let t = choose|t: int| cset.contains(t) && f(t) == p;
            assert(comp[t]);
            assert(occa[b[t]]);
        }
        assert forall|p: int| aset.contains(p) implies cset.map(f).contains(p) by {
            lemma_perm_hits_all(b, p);
            let t = choose|t: int| 0 <= t < n && b[t] == p;
            assert(comp[t] == occa[p]);
            assert(cset.contains(t));
            assert(f(t) == p);
        }
    }
    vstd::set_lib::lemma_map_size(cset, aset, f);
}

/// A full edge permutation always parks exactly four E-slice edges
/// somewhere: the count of positions holding an E-slice edge is four.
pub proof fn lemma_perm_has_four_e_edges(s: Seq<int>)
    requires
        s.len() == 12,
        no_dups(s),
        forall|t: int| 0 <= t < 12 ==> 0 <= #[trigger] s[t] < 12,
    ensures
        count_true(occ_ints(s), 12) == 4,
{
    let occa = Seq::new(12, |p: int| p <= 3);
    let comp = Seq::new(12nat, |i: int| occa[s[i]]);
    assert(comp =~= occ_ints(s));
    lemma_count_true_perm(occa, s, 12);
    assert(count_true(occa, 0) == 0);
    assert(count_true(occa, 1) == 1);
    assert(count_true(occa, 2) == 2);
    assert(count_true(occa, 3) == 3);
    assert(count_true(occa, 4) == 4);
    assert(count_true(occa, 5) == 4);
    assert(count_true(occa, 6) == 4);
    assert(count_true(occa, 7) == 4);
    assert(count_true(occa, 8) == 4);
    assert(count_true(occa, 9) == 4);
    assert(count_true(occa, 10) == 4);
    assert(count_true(occa, 11) == 4);
    assert(count_true(occa, 12) == 4);
}

/// Round trip of the corner-orientation codec: the rank of a valid twist
/// vector is in the coordinate's domain, and decoding it gives the vector
/// back. Together with the decode contract (ranking a decoded vector gives
/// the index back), the codec is a bijection.
pub proof fn lemma_co_round_trip(s: Seq<int>)
    requires
        s.len() == 8,
        forall|i: int| 0 <= i < 8 ==> 0 <= #[trigger] s[i] < 3,
        seq_sum(s) % 3 == 0,
    ensures
        0 <= ori_rank(s.take(7), 3) < 2187,
        ori_decoded(3, 7, ori_rank(s.take(7), 3)) == s,
{
    lemma_ori_round_trip(s, 3);
    assert(powi(3, 7) == 2187) by {
        assert(powi(3, 0) == 1);
        assert(powi(3, 1) == 3);
        assert(powi(3, 2) == 9);
        assert(powi(3, 3) == 27);
        assert(powi(3, 4) == 81);
        assert(powi(3, 5) == 243);
        assert(powi(3, 6) == 729);
    }
}

/// Round trip of the edge-orientation codec.
pub proof fn lemma_eo_round_trip(s: Seq<int>)
    requires
        s.len() == 12,
        forall|i: int| 0 <= i < 12 ==> 0 <= #[trigger] s[i] < 2,
        seq_sum(s) % 2 == 0,
    ensures
        0 <= ori_rank(s.take(11), 2) < 2048,
        ori_decoded(2, 11, ori_rank(s.take(11), 2)) == s,
{
    lemma_ori_round_trip(s, 2);
    assert(powi(2, 11) == 2048) by {
        assert(powi(2, 0) == 1);
        assert(powi(2, 1) == 2);
        assert(powi(2, 2) == 4);
        assert(powi(2, 3) == 8);
        assert(powi(2, 4) == 16);
        assert(powi(2, 5) == 32);
        assert(powi(2, 6) == 64);
        assert(powi(2, 7) == 128);
        assert(powi(2, 8) == 256);
        assert(powi(2, 9) == 512);
        assert(powi(2, 10) == 1024);
    }
}

/// Any orientation codec is a bijection: decoding the rank of a valid
/// digit vector restores it, completion digit included.
proof fn lemma_ori_round_trip(s: Seq<int>, b: int)
    requires
        2 <= b,
        s.len() >= 1,
        forall|i: int| 0 <= i < s.len() ==> 0 <= #[trigger] s[i] < b,
        seq_sum(s) % b == 0,
    ensures
        0 <= ori_rank(s.drop_last(), b) < powi(b, (s.len() - 1) as nat),
        ori_decoded(b, (s.len() - 1) as nat, ori_rank(s.drop_last(), b)) == s,
        s.drop_last() == s.take(s.len() - 1),
{
    let n = (s.len() - 1) as nat;
    let d = s.drop_last();
    assert(d =~= s.take(s.len() - 1));
    assert(forall|i: int| 0 <= i < d.len() ==> 0 <= #[trigger] d[i] < b);
    lemma_ori_rank_bound(d, b);
    lemma_ori_digits_of_rank(d, b);
    let r = ori_rank(d, b);
    let whole = ori_decoded(b, n, r);
    let sum_d = seq_sum(d);
    let last = s.last();
    assert(seq_sum(s) == sum_d + last);
    let m = sum_d % b;
    vstd::arithmetic::div_mod::lemma_mod_bound(sum_d, b);
    vstd::arithmetic::div_mod::lemma_add_mod_noop(sum_d, last, b);
    assert(last % b == last) by {
        vstd::arithmetic::div_mod::lemma_small_mod(last as nat, b as nat);
    }
    assert((m + last) % b == 0);
    assert(0 <= m + last < 2 * b);
    if m + last < b {
        vstd::arithmetic::div_mod::lemma_small_mod((m + last) as nat, b as nat);
        assert(m + last == 0);
        assert(m == 0 && last == 0);
        assert((b - m) % b == 0) by {
            vstd::arithmetic::div_mod::lemma_mod_self_0(b);
        }
    } else {
        assert((m + last - b) % b == 0) by {
            vstd::arithmetic::div_mod::lemma_mod_sub_multiples_vanish(m + last, b);
        }
        vstd::arithmetic::div_mod::lemma_small_mod((m + last - b) as nat, b as nat);
        assert(m + last == b);
        assert(last == b - m);
        assert(0 < b - m < b || (m == 0 && last == b));
        assert(m != 0) by {
            if m == 0 {
                assert(last == b);
            }
        }
        assert((b - m) % b == b - m) by {
            vstd::arithmetic::div_mod::lemma_small_mod((b - m) as nat, b as nat);
        }
    }
    assert(whole.last() == last);
    assert(whole =~= s);
}

/// Round trip of the E-combination codec on the occupancy pattern: decoding
/// the rank of a four-element pattern restores the pattern.
pub proof fn lemma_combo_round_trip(occ: Seq<bool>, i: int, k: int)
    requires
        0 <= i <= occ.len(),
        0 <= k <= 4,
        count_true(occ, i) == k,
    ensures
        forall|t: int|
            0 <= t < i ==> occ_ints(combo_decode_rec(i as nat, k, combo_rank(occ, i, k)))[t]
                == occ[t],
    decreases i,
{
    let idx = combo_rank(occ, i, k);
    let dec = combo_decode_rec(i as nat, k, idx);
    lemma_combo_decode_len(i as nat, k, idx);
    if i > 0 {
        lemma_count_true_nonneg(occ, i - 1);
        if occ[i - 1] {
            assert(count_true(occ, i - 1) == k - 1);
            lemma_combo_rank_bound(occ, i - 1, k - 1);
            lemma_choose_nonneg(i - 1, k);
            assert(idx == choose_n(i - 1, k) + combo_rank(occ, i - 1, k - 1));
            assert(idx >= choose_n(i - 1, k));
            let rest = combo_decode_rec((i - 1) as nat, k - 1, idx - choose_n(i - 1, k));
            assert(dec == rest.push(k - 1));
            lemma_combo_decode_len((i - 1) as nat, k - 1, idx - choose_n(i - 1, k));
            lemma_combo_round_trip(occ, i - 1, k - 1);
            assert forall|t: int| 0 <= t < i implies occ_ints(dec)[t] == occ[t] by {
                if t < i - 1 {
                    assert(occ_ints(rest)[t] == occ[t]);
                    assert(dec[t] == rest[t]);
                } else {
                    assert(dec[t] == k - 1);
                    assert(k - 1 <= 3);
                }
            }
        } else {
            assert(count_true(occ, i - 1) == k);
            lemma_combo_rank_bound(occ, i - 1, k);
            assert(idx == combo_rank(occ, i - 1, k));
            assert(idx < choose_n(i - 1, k));
            let rest = combo_decode_rec((i - 1) as nat, k, idx);
            assert(dec == rest.push(4));
            lemma_combo_decode_len((i - 1) as nat, k, idx);
            lemma_combo_round_trip(occ, i - 1, k);
            assert forall|t: int| 0 <= t < i implies occ_ints(dec)[t] == occ[t] by {
                if t < i - 1 {
                    assert(occ_ints(rest)[t] == occ[t]);
                    assert(dec[t] == rest[t]);
                } else {
                    assert(dec[t] == 4);
                }
            }
        }
    }
}

/// A vector of zero digits has rank zero.
pub proof fn lemma_ori_rank_zero(s: Seq<int>, b: int)
    requires
        forall|k: int| 0 <= k < s.len() ==> #[trigger] s[k] == 0,
    ensures
        ori_rank(s, b) == 0,
    decreases s.len(),
{
    if s.len() > 0 {
        let d = s.drop_last();
        assert(forall|k: int| 0 <= k < d.len() ==> #[trigger] d[k] == 0);
        lemma_ori_rank_zero(d, b);
    }
}

proof fn lemma_cnt_lt_sorted(s: Seq<int>, i: int, j: int)
    requires
        0 <= i < s.len(),
        i + 1 <= j <= s.len(),
        forall|x: int, y: int| 0 <= x < y < s.len() ==> #[trigger] s[x] < #[trigger] s[y],
    ensures
        cnt_lt(s, i, j) == 0,
    decreases j,
{
    if j > i + 1 {
        lemma_cnt_lt_sorted(s, i, j - 1);
    }
}

proof fn lemma_lehmer_prefix_sorted(s: Seq<int>, i: int)
    requires
        0 <= i <= s.len(),
        forall|x: int, y: int| 0 <= x < y < s.len() ==> #[trigger] s[x] < #[trigger] s[y],
    ensures
        lehmer_prefix(s, i) == 0,
    decreases i,
{
    if i > 0 {
        lemma_lehmer_prefix_sorted(s, i - 1);
        if i - 1 < s.len() && i - 1 + 1 <= s.len() {
            lemma_cnt_lt_sorted(s, i - 1, s.len() as int);
        }
    }
}

/// A strictly increasing arrangement has Lehmer rank zero.
pub proof fn lemma_lehmer_rank_sorted(s: Seq<int>)
    requires
        forall|x: int, y: int| 0 <= x < y < s.len() ==> #[trigger] s[x] < #[trigger] s[y],
    ensures
        lehmer_rank(s) == 0,
{
    lemma_lehmer_prefix_sorted(s, s.len() as int);
}

/// The solved arrangement of edges has E-combination rank zero.
pub proof fn lemma_combo_rank_solved(occ: Seq<bool>)
    requires
        occ.len() == 12,
        forall|k: int| 0 <= k < 12 ==> #[trigger] occ[k] == (k < 4),
    ensures
        combo_rank(occ, 12, 4) == 0,
{
    assert(choose_n(0, 1) == 0);
    assert(choose_n(1, 2) == 0);
    assert(choose_n(2, 3) == 0);
    assert(choose_n(3, 4) == 0);
    assert(combo_rank(occ, 0, 0) == 0);
    assert(combo_rank(occ, 1, 1) == 0);
    assert(combo_rank(occ, 2, 2) == 0);
    assert(combo_rank(occ, 3, 3) == 0);
    assert(combo_rank(occ, 4, 4) == 0);
    assert(combo_rank(occ, 5, 4) == 0);
    assert(combo_rank(occ, 6, 4) == 0);
    assert(combo_rank(occ, 7, 4) == 0);
    assert(combo_rank(occ, 8, 4) == 0);
    assert(combo_rank(occ, 9, 4) == 0);
    assert(combo_rank(occ, 10, 4) == 0);
    assert(combo_rank(occ, 11, 4) == 0);
    assert(combo_rank(occ, 12, 4) == 0);
}

/// How many entries of `p` in `[from, to)` lie below the value `v`.
pub open spec fn cnt_below(p: Seq<int>, v: int, from: int, to: int) -> int
    decreases to - from,
{
    if to <= from {
        0
    } else {
        cnt_below(p, v, from, to - 1) + if p[to - 1] < v {
            1int
        } else {
            0int
        }
    }
}

/// The inversion count of `p` over the rows from `i` on: for each row, the
/// later entries smaller than its own.
pub open spec fn inv_from(p: Seq<int>, i: int) -> int
    decreases p.len() - i,
{
    if i < 0 || i >= p.len() {
        0
    } else {
        cnt_below(p, p[i], i + 1, p.len() as int) + inv_from(p, i + 1)
    }
}

/// Overwriting one position changes a below-count by that position's two
/// indicator values.
proof fn lemma_cnt_below_update(p: Seq<int>, v: int, from: int, to: int, x: int, w: int)
    requires
        0 <= x < p.len(),
        0 <= from,
        to <= p.len(),
    ensures
        cnt_below(p.update(x, w), v, from, to) == cnt_below(p, v, from, to) + (if from <= x < to {
            (if w < v { 1int } else { 0int }) - (if p[x] < v { 1int } else { 0int })
        } else {
            0int
        }),
    decreases to - from,
{
    if to > from {
        lemma_cnt_below_update(p, v, from, to - 1, x, w);
        if x == to - 1 {
            assert(p.update(x, w)[to - 1] == w);
        } else {
            assert(p.update(x, w)[to - 1] == p[to - 1]);
        }
    }
}

/// Below-counts split at any midpoint.
proof fn lemma_cnt_below_split(p: Seq<int>, v: int, from: int, mid: int, to: int)
    requires
        from <= mid <= to,
    ensures
        cnt_below(p, v, from, to) == cnt_below(p, v, from, mid) + cnt_below(p, v, mid, to),
    decreases to - mid,
{
    if to > mid {
        lemma_cnt_below_split(p, v, from, mid, to - 1);
    }
}

/// The row-pivot flips of a swap over a range: how the rows between the
/// swapped positions change when their tail entry `y` becomes `x`.
pub open spec fn flip_sum(p: Seq<int>, x: int, y: int, from: int, to: int) -> int
    decreases to - from,
{
    if to <= from {
        0
    } else {
        flip_sum(p, x, y, from, to - 1) + (if x < p[to - 1] {
            1int
        } else {
            0int
        }) - (if y < p[to - 1] {
            1int
        } else {
            0int
        })
    }
}

/// Against entries distinct from both pivots, the row flips and the pivot
/// count difference cancel modulo two.
proof fn lemma_flip_cnt_even(p: Seq<int>, x: int, y: int, from: int, to: int)
    requires
        forall|t: int| from <= t < to ==> #[trigger] p[t] != x && p[t] != y,
        to <= p.len(),
    ensures
        (flip_sum(p, x, y, from, to) + cnt_below(p, y, from, to) - cnt_below(p, x, from, to)) % 2
            == 0,
    decreases to - from,
{
    if to > from {
        lemma_flip_cnt_even(p, x, y, from, to - 1);
    }
}

/// Rows past both swapped positions are untouched by the swap.
proof fn lemma_inv_swap_tail(p: Seq<int>, q: Seq<int>, a: int, b: int, i: int)
    requires
        0 <= a < b < p.len(),
        q == p.update(a, p[b]).update(b, p[a]),
        b < i,
    ensures
        inv_from(q, i) == inv_from(p, i),
    decreases p.len() - i,
{
    if i < p.len() {
        lemma_inv_swap_tail(p, q, a, b, i + 1);
        lemma_cnt_below_update(p, p[i], i + 1, p.len() as int, a, p[b]);
        lemma_cnt_below_update(p.update(a, p[b]), p[i], i + 1, p.len() as int, b, p[a]);
    }
}

/// Rows strictly between the swapped positions change exactly by the flip
/// of their tail entry at position `b`.
proof fn lemma_inv_swap_mid(p: Seq<int>, q: Seq<int>, a: int, b: int, i: int)
    requires
        0 <= a < b < p.len(),
        q == p.update(a, p[b]).update(b, p[a]),
        a < i <= b,
    ensures
        inv_from(q, i) == inv_from(p, i) + flip_sum(p, p[a], p[b], i, b) + cnt_below(
            p,
            p[a],
            b + 1,
            p.len() as int,
        ) - cnt_below(p, p[b], b + 1, p.len() as int),
    decreases b - i,
{
    let n = p.len() as int;
    let x = p[a];
    let y = p[b];
    if i == b {
        lemma_inv_swap_tail(p, q, a, b, b + 1);
        assert(q[b] == x);
        lemma_cnt_below_update(p, x, b + 1, n, a, y);
        lemma_cnt_below_update(p.update(a, y), x, b + 1, n, b, x);
        assert(cnt_below(q, x, b + 1, n) == cnt_below(p, x, b + 1, n));
    } else {
        lemma_inv_swap_mid(p, q, a, b, i + 1);
        assert(q[i] == p[i]);
        lemma_cnt_below_update(p, p[i], i + 1, n, a, y);
        lemma_cnt_below_update(p.update(a, y), p[i], i + 1, n, b, x);
        assert(cnt_below(q, p[i], i + 1, n) == cnt_below(p, p[i], i + 1, n) + (if x < p[i] {
            1int
        } else {
            0int
        }) - (if y < p[i] { 1int } else { 0int }));
        assert(flip_sum(p, x, y, i, b) == flip_sum(p, x, y, i + 1, b) + (if x < p[i] {
            1int
        } else {
            0int
        }) - (if y < p[i] { 1int } else { 0int })) by {
            lemma_flip_sum_first(p, x, y, i, b);
        }
    }
}

/// Peel the first entry off a flip sum.
proof fn lemma_flip_sum_first(p: Seq<int>, x: int, y: int, from: int, to: int)
    requires
        from < to,
    ensures
        flip_sum(p, x, y, from, to) == flip_sum(p, x, y, from + 1, to) + (if x < p[from] {
            1int
        } else {
            0int
        }) - (if y < p[from] { 1int } else { 0int }),
    decreases to - from,
{
    if from + 1 < to {
        lemma_flip_sum_first(p, x, y, from, to - 1);
        assert(flip_sum(p, x, y, from + 1, to) == flip_sum(p, x, y, from + 1, to - 1) + (if x < p[
            to - 1
        ] {
            1int
        } else {
            0int
        }) - (if y < p[to - 1] { 1int } else { 0int }));
    } else {
        assert(flip_sum(p, x, y, from + 1, to) == 0);
        assert(flip_sum(p, x, y, from, to - 1) == 0);
    }
}

/// Swapping two distinct entries flips the inversion parity.
proof fn lemma_inv_swap(p: Seq<int>, a: int, b: int)
    requires
        0 <= a < b < p.len(),
        p[a] != p[b],
        forall|t: int| a < t < b ==> #[trigger] p[t] != p[a] && p[t] != p[b],
    ensures
        (inv_from(p.update(a, p[b]).update(b, p[a]), 0) + inv_from(p, 0)) % 2 == 1,
{
    let n = p.len() as int;
    let x = p[a];
    let y = p[b];
    let q = p.update(a, y).update(b, x);
    lemma_inv_swap_mid(p, q, a, b, a + 1);
    // row a: pivot changes from x to y
    assert(q[a] == y);
    lemma_cnt_below_update(p, y, a + 1, n, a, y);
    lemma_cnt_below_update(p.update(a, y), y, a + 1, n, b, x);
    assert(cnt_below(q, y, a + 1, n) == cnt_below(p, y, a + 1, n) + (if x < y {
        1int
    } else {
        0int
    }) - (if y < y { 1int } else { 0int }));
    assert(inv_from(q, a) == cnt_below(q, y, a + 1, n) + inv_from(q, a + 1));
    assert(inv_from(p, a) == cnt_below(p, x, a + 1, n) + inv_from(p, a + 1));
    // split both row-a counts at b and b + 1
    lemma_cnt_below_split(p, y, a + 1, b, n);
    lemma_cnt_below_split(p, y, b, b + 1, n);
    lemma_cnt_below_split(p, x, a + 1, b, n);
    lemma_cnt_below_split(p, x, b, b + 1, n);
    assert(cnt_below(p, y, b, b) == 0);
    assert(cnt_below(p, x, b, b) == 0);
    assert(cnt_below(p, y, b, b + 1) == 0);
    assert(cnt_below(p, x, b, b + 1) == (if y < x { 1int } else { 0int }));
    // the mixed range terms cancel modulo two
    lemma_flip_cnt_even(p, x, y, a + 1, b);
    // rows before a are unchanged
    lemma_inv_swap_head(p, q, a, b, 0);
    let d = inv_from(q, a) - inv_from(p, a);
    assert(inv_from(q, 0) - inv_from(p, 0) == d);
    let even_part = flip_sum(p, x, y, a + 1, b) + cnt_below(p, y, a + 1, b) - cnt_below(
        p,
        x,
        a + 1,
        b,
    );
    assert(even_part % 2 == 0);
    assert(d == even_part + (if x < y { 1int } else { 0int }) - (if y < x { 1int } else { 0int }));
    let sign: int = if x < y { 1 } else { -1 };
    assert(d == even_part + sign);
    assert(d % 2 == 1) by {
        assert((even_part + 1) % 2 == 1 && (even_part - 1) % 2 == 1) by {
            vstd::arithmetic::div_mod::lemma_fundamental_div_mod(even_part, 2);
            vstd::arithmetic::div_mod::lemma_fundamental_div_mod_converse(
                even_part + 1,
                2,
                even_part / 2,
                1,
            );
            vstd::arithmetic::div_mod::lemma_fundamental_div_mod_converse(
                even_part - 1,
                2,
                even_part / 2 - 1,
                1,
            );
        }
    }
    assert(inv_from(q, 0) == inv_from(p, 0) + d);
    assert((inv_from(q, 0) + inv_from(p, 0)) % 2 == 1) by {
        let ip = inv_from(p, 0);
        assert(ip + d + ip == 2 * ip + d);
        vstd::arithmetic::div_mod::lemma_mod_multiples_vanish(ip, d, 2);
    }
}

/// Rows before the first swapped position keep their counts: the swap
/// permutes entries inside their tails.
proof fn lemma_inv_swap_head(p: Seq<int>, q: Seq<int>, a: int, b: int, i: int)
    requires
        0 <= a < b < p.len(),
        q == p.update(a, p[b]).update(b, p[a]),
        0 <= i <= a,
    ensures
        inv_from(q, i) - inv_from(p, i) == inv_from(q, a) - inv_from(p, a),
    decreases a - i,
{
    let n = p.len() as int;
    if i < a {
        lemma_inv_swap_head(p, q, a, b, i + 1);
        assert(q[i] == p[i]);
        lemma_cnt_below_update(p, p[i], i + 1, n, a, p[b]);
        lemma_cnt_below_update(p.update(a, p[b]), p[i], i + 1, n, b, p[a]);
        assert(cnt_below(q, p[i], i + 1, n) == cnt_below(p, p[i], i + 1, n));
    }
}

/// A below-count of entries that all exceed the pivot is zero.
proof fn lemma_cnt_below_zero_high(p: Seq<int>, v: int, from: int, to: int)
    requires
        forall|t: int| from <= t < to ==> #[trigger] p[t] > v,
    ensures
        cnt_below(p, v, from, to) == 0,
    decreases to - from,
{
    if to > from {
        lemma_cnt_below_zero_high(p, v, from, to - 1);
    }
}

/// Behind an identity prefix of a duplicate-free arrangement, every entry
/// is at least the prefix length.
proof fn lemma_suffix_at_least(p: Seq<int>, i: int)
    requires
        0 <= i <= p.len(),
        no_dups(p),
        forall|t: int| 0 <= t < p.len() ==> 0 <= #[trigger] p[t] < p.len(),
        forall|k: int| 0 <= k < i ==> #[trigger] p[k] == k,
    ensures
        forall|t: int| i <= t < p.len() ==> #[trigger] p[t] >= i,
{
    assert forall|t: int| i <= t < p.len() implies #[trigger] p[t] >= i by {
        if p[t] < i {
            assert(p[p[t]] == p[t]);
        }
    }
}

/// Rows inside an identity prefix contribute no inversions.
proof fn lemma_inv_prefix_rows_zero(p: Seq<int>, i: int, k: int)
    requires
        0 <= k <= i <= p.len(),
        no_dups(p),
        forall|t: int| 0 <= t < p.len() ==> 0 <= #[trigger] p[t] < p.len(),
        forall|t: int| 0 <= t < i ==> #[trigger] p[t] == t,
    ensures
        inv_from(p, k) == inv_from(p, i),
    decreases i - k,
{
    if k < i {
        lemma_inv_prefix_rows_zero(p, i, k + 1);
        lemma_suffix_at_least(p, i);
        assert forall|t: int| k + 1 <= t < p.len() implies #[trigger] p[t] > p[k] by {
            if t < i {
                assert(p[t] == t);
            } else {
                assert(p[t] >= i);
            }
        }
        lemma_cnt_below_zero_high(p, p[k], k + 1, p.len() as int);
    }
}

/// Where a value occurs, `find_pos` finds its first occurrence.
proof fn lemma_find_pos_finds(p: Seq<int>, v: int, from: int)
    requires
        0 <= from,
        exists|t: int| from <= t < p.len() && #[trigger] p[t] == v,
    ensures
        from <= crate::cubie::find_pos(p, v, from) < p.len(),
        p[crate::cubie::find_pos(p, v, from)] == v,
    decreases p.len() - from,
{
    if p[from] != v {
        assert(exists|t: int| from + 1 <= t < p.len() && #[trigger] p[t] == v) by {
            let t = choose|t: int| from <= t < p.len() && #[trigger] p[t] == v;
            assert(from + 1 <= t < p.len() && p[t] == v);
        }
        lemma_find_pos_finds(p, v, from + 1);
    }
}

/// The cycle-correcting count and the inversion count of a permutation
/// have the same parity, from any identity prefix on.
pub proof fn lemma_swap_count_inv_parity(p: Seq<int>, i: int)
    requires
        0 <= i,
        p.len() <= 12,
        no_dups(p),
        forall|t: int| 0 <= t < p.len() ==> 0 <= #[trigger] p[t] < p.len(),
        forall|t: int| 0 <= t < i ==> #[trigger] p[t] == t,
    ensures
        (crate::cubie::swap_count(p, i) + inv_from(p, 0)) % 2 == 0,
    decreases p.len() - i,
{
    let n = p.len() as int;
    if i >= n {
        assert(crate::cubie::swap_count(p, i) == 0);
        lemma_inv_prefix_rows_zero(p, n, 0);
        assert(inv_from(p, n) == 0);
        assert(inv_from(p, 0) % 2 == 0) by {
            vstd::arithmetic::div_mod::lemma_mod_self_0(2);
        }
    } else if p[i] == i {
        assert(crate::cubie::swap_count(p, i) == crate::cubie::swap_count(p, i + 1));
        lemma_swap_count_inv_parity(p, i + 1);
    } else {
        assert(exists|t: int| i + 1 <= t < n && #[trigger] p[t] == i) by {
            lemma_perm_hits_all(p, i);
            let t = choose|t: int| 0 <= t < n && #[trigger] p[t] == i;
            assert(t >= i) by {
                if t < i {
                    assert(p[t] == t);
                }
            }
            assert(t != i);
            assert(i + 1 <= t < n && p[t] == i);
        }
        lemma_find_pos_finds(p, i, i + 1);
        let j = crate::cubie::find_pos(p, i, i + 1);
        let q = p.update(i, p[j]).update(j, p[i]);
        assert(crate::cubie::swap_count(p, i) == 1 + crate::cubie::swap_count(q, i + 1));
        assert(no_dups(q)) by {
            assert forall|x: int, y: int| 0 <= x < y < n implies q[x] != q[y] by {
                assert(p[x] != p[y]);
            }
        }
        assert(forall|t: int| 0 <= t < n ==> 0 <= #[trigger] q[t] < n);
        assert(forall|t: int| 0 <= t < i + 1 ==> #[trigger] q[t] == t);
        lemma_swap_count_inv_parity(q, i + 1);
        assert(forall|t: int| i < t < j ==> #[trigger] p[t] != p[i] && p[t] != p[j]);
        lemma_inv_swap(p, i, j);
        let a0 = crate::cubie::swap_count(q, i + 1);
        let b0 = inv_from(q, 0);
        let c0 = inv_from(p, 0);
        assert((a0 + b0) % 2 == 0);
        assert((b0 + c0) % 2 == 1);
        assert((1 + a0 + c0) % 2 == 0) by {
            vstd::arithmetic::div_mod::lemma_fundamental_div_mod(a0 + b0, 2);
            vstd::arithmetic::div_mod::lemma_fundamental_div_mod(b0 + c0, 2);
            let k0 = (a0 + b0) / 2;
            let k1 = (b0 + c0) / 2;
            assert(1 + a0 + c0 == 2 * (k0 + k1 + 1) + (-2) * b0);
            assert(1 + a0 + c0 == 2 * (k0 + k1 + 1 - b0));
            vstd::arithmetic::div_mod::lemma_mod_multiples_basic(k0 + k1 + 1 - b0, 2);
        }
    }
}

/// Swapping two positions of a permutation flips the parity of the
/// cycle-correcting transposition count: the repair a generator makes on a
/// parity mismatch always restores solvability.
pub proof fn lemma_swap_flips_swap_count(p: Seq<int>, a: int, b: int)
    requires
        0 <= a < b < p.len(),
        p.len() <= 12,
        no_dups(p),
        forall|t: int| 0 <= t < p.len() ==> 0 <= #[trigger] p[t] < p.len(),
    ensures
        (crate::cubie::swap_count(p.update(a, p[b]).update(b, p[a]), 0) + crate::cubie::swap_count(
            p,
            0,
        )) % 2 == 1,
{
    let n = p.len() as int;
    let q = p.update(a, p[b]).update(b, p[a]);
    assert(no_dups(q)) by {
        assert forall|x: int, y: int| 0 <= x < y < n implies q[x] != q[y] by {
            assert(p[x] != p[y]);
        }
    }
    assert(forall|t: int| 0 <= t < n ==> 0 <= #[trigger] q[t] < n);
    lemma_swap_count_inv_parity(p, 0);
    lemma_swap_count_inv_parity(q, 0);
    assert(forall|t: int| a < t < b ==> #[trigger] p[t] != p[a] && p[t] != p[b]);
    lemma_inv_swap(p, a, b);
    let sp = crate::cubie::swap_count(p, 0);
    let sq = crate::cubie::swap_count(q, 0);
    let ip = inv_from(p, 0);
    let iq = inv_from(q, 0);
    assert((sp + ip) % 2 == 0);
    assert((sq + iq) % 2 == 0);
    assert((iq + ip) % 2 == 1);
    assert((sq + sp) % 2 == 1) by {
        vstd::arithmetic::div_mod::lemma_fundamental_div_mod(sp + ip, 2);
        vstd::arithmetic::div_mod::lemma_fundamental_div_mod(sq + iq, 2);
        vstd::arithmetic::div_mod::lemma_fundamental_div_mod(iq + ip, 2);
        let k0 = (sp + ip) / 2;
        let k1 = (sq + iq) / 2;
        let k2 = (iq + ip) / 2;
        assert(sq + sp == 2 * (k0 + k1) - (2 * k2 + 1));
        assert(sq + sp == 2 * (k0 + k1 - k2 - 1) + 1);
        vstd::arithmetic::div_mod::lemma_fundamental_div_mod_converse(
            sq + sp,
            2,
            k0 + k1 - k2 - 1,
            1,
        );
    }
}

proof fn lemma_cnt_lt_zero_no_less(p: Seq<int>, i: int, j: int)
    requires
        0 <= i,
        i + 1 <= j <= p.len(),
        cnt_lt(p, i, j) == 0,
    ensures
        forall|t: int| i + 1 <= t < j ==> !(#[trigger] p[t] < p[i]),
    decreases j,
{
    if j > i + 1 {
        lemma_cnt_lt_bound(p, i, j - 1);
        lemma_cnt_lt_zero_no_less(p, i, j - 1);
    }
}

proof fn lemma_prefix_zero_all(p: Seq<int>, i: int)
    requires
        0 <= i <= p.len(),
        lehmer_prefix(p, i) == 0,
    ensures
        forall|j: int| 0 <= j < i ==> #[trigger] cnt_lt(p, j, p.len() as int) == 0,
    decreases i,
{
    if i > 0 {
        let w = p.len() - (i - 1);
        let pre = lehmer_prefix(p, i - 1);
        let c = cnt_lt(p, i - 1, p.len() as int);
        lemma_lehmer_prefix_bound(p, i - 1);
        lemma_cnt_lt_bound(p, i - 1, p.len() as int);
        assert(pre * w + c == 0);
        assert(pre * w >= 0 && (pre * w == 0 ==> pre == 0)) by (nonlinear_arith)
            requires
                pre >= 0,
                w >= 1,
        ;
        lemma_prefix_zero_all(p, i - 1);
    }
}

/// The converse of `lemma_lehmer_rank_sorted`: a duplicate-free
/// arrangement of rank zero is strictly ascending, completing the claim
/// that rank zero characterizes the sorted arrangement.
pub proof fn lemma_lehmer_rank_zero_sorted(s: Seq<int>)
    requires
        no_dups(s),
        lehmer_rank(s) == 0,
    ensures
        forall|x: int, y: int| 0 <= x < y < s.len() ==> s[x] < s[y],
{
    lemma_prefix_zero_all(s, s.len() as int);
    assert forall|x: int, y: int| 0 <= x < y < s.len() implies s[x] < s[y] by {
        assert(cnt_lt(s, x, s.len() as int) == 0);
        lemma_cnt_lt_zero_no_less(s, x, s.len() as int);
        assert(!(s[y] < s[x]));
        assert(s[x] != s[y]);
    }
}

/// Composition of plain arrangements: position `k` receives the entry of
/// `a` at the position `b` names.
pub open spec fn comp_seq(a: Seq<int>, b: Seq<int>) -> Seq<int> {
    Seq::new(b.len(), |k: int| a[b[k]])
}

/// The transposition parities multiply under composition: the count of the
/// composite has the parity of the two counts added.
proof fn lemma_comp_parity_from(a: Seq<int>, b: Seq<int>, i: int)
    requires
        0 <= i,
        a.len() == b.len(),
        b.len() <= 12,
        no_dups(a),
        no_dups(b),
        forall|t: int| 0 <= t < a.len() ==> 0 <= #[trigger] a[t] < a.len(),
        forall|t: int| 0 <= t < b.len() ==> 0 <= #[trigger] b[t] < b.len(),
        forall|t: int| 0 <= t < i ==> #[trigger] b[t] == t,
    ensures
        (crate::cubie::swap_count(comp_seq(a, b), 0) + crate::cubie::swap_count(a, 0)
            + crate::cubie::swap_count(b, i)) % 2 == 0,
    decreases b.len() - i,
{
    let n = b.len() as int;
    if i >= n {
        assert(crate::cubie::swap_count(b, i) == 0);
        assert(comp_seq(a, b) =~= a);
        let sa = crate::cubie::swap_count(a, 0);
        assert((sa + sa) % 2 == 0) by {
            vstd::arithmetic::div_mod::lemma_mod_multiples_basic(sa, 2);
        }
    } else if b[i] == i {
        assert(crate::cubie::swap_count(b, i) == crate::cubie::swap_count(b, i + 1));
        lemma_comp_parity_from(a, b, i + 1);
    } else {
        assert(exists|t: int| i + 1 <= t < n && #[trigger] b[t] == i) by {
            lemma_perm_hits_all(b, i);
            let t = choose|t: int| 0 <= t < n && #[trigger] b[t] == i;
            assert(t >= i) by {
                if t < i {
                    assert(b[t] == t);
                }
            }
            assert(t != i);
            assert(i + 1 <= t < n && b[t] == i);
        }
        lemma_find_pos_finds(b, i, i + 1);
        let j = crate::cubie::find_pos(b, i, i + 1);
        let b2 = b.update(i, b[j]).update(j, b[i]);
        assert(crate::cubie::swap_count(b, i) == 1 + crate::cubie::swap_count(b2, i + 1));
        assert(no_dups(b2)) by {
            assert forall|x: int, y: int| 0 <= x < y < n implies b2[x] != b2[y] by {
                assert(b[x] != b[y]);
            }
        }
        assert(forall|t: int| 0 <= t < n ==> 0 <= #[trigger] b2[t] < n);
        assert(forall|t: int| 0 <= t < i + 1 ==> #[trigger] b2[t] == t);
        lemma_comp_parity_from(a, b2, i + 1);
        let c = comp_seq(a, b);
        let c2 = comp_seq(a, b2);
        assert(c2 =~= c.update(i, c[j]).update(j, c[i]));
        assert(no_dups(c)) by {
            assert forall|x: int, y: int| 0 <= x < y < n implies c[x] != c[y] by {
                assert(b[x] != b[y]);
                assert(c[x] == a[b[x]] && c[y] == a[b[y]]);
                if a[b[x]] == a[b[y]] {
                    if b[x] < b[y] {
                        assert(a[b[x]] != a[b[y]]);
                    } else {
                        assert(a[b[y]] != a[b[x]]);
                    }
                }
            }
        }
        assert(forall|t: int| 0 <= t < n ==> 0 <= #[trigger] c[t] < n);
        assert(c.len() == n);
        lemma_swap_flips_swap_count(c, i, j);
        let sc_c = crate::cubie::swap_count(c, 0);
        let sc_c2 = crate::cubie::swap_count(c2, 0);
        let sa = crate::cubie::swap_count(a, 0);
        let sb2 = crate::cubie::swap_count(b2, i + 1);
        assert((sc_c2 + sc_c) % 2 == 1);
        assert((sc_c2 + sa + sb2) % 2 == 0);
        assert((sc_c + sa + 1 + sb2) % 2 == 0) by {
            vstd::arithmetic::div_mod::lemma_fundamental_div_mod(sc_c2 + sc_c, 2);
            vstd::arithmetic::div_mod::lemma_fundamental_div_mod(sc_c2 + sa + sb2, 2);
            let k2 = (sc_c2 + sc_c) / 2;
            let k1 = (sc_c2 + sa + sb2) / 2;
            assert(sc_c == 2 * k2 + 1 - sc_c2);
            assert(sa + sb2 == 2 * k1 - sc_c2);
            assert(sc_c + sa + 1 + sb2 == 2 * (k1 + k2 + 1 - sc_c2));
            vstd::arithmetic::div_mod::lemma_mod_multiples_basic(k1 + k2 + 1 - sc_c2, 2);
        }
    }
}

/// Composing two permutations adds their transposition parities.
pub proof fn lemma_comp_parity(a: Seq<int>, b: Seq<int>)
    requires
        a.len() == b.len(),
        b.len() <= 12,
        no_dups(a),
        no_dups(b),
        forall|t: int| 0 <= t < a.len() ==> 0 <= #[trigger] a[t] < a.len(),
        forall|t: int| 0 <= t < b.len() ==> 0 <= #[trigger] b[t] < b.len(),
    ensures
        (crate::cubie::swap_count(comp_seq(a, b), 0) + crate::cubie::swap_count(a, 0)
            + crate::cubie::swap_count(b, 0)) % 2 == 0,
{
    lemma_comp_parity_from(a, b, 0);
}

proof fn lemma_seq_sum_update(s: Seq<int>, i: int, v: int)
    requires
        0 <= i < s.len(),
    ensures
        crate::cubie::seq_sum(s.update(i, v)) == crate::cubie::seq_sum(s) - s[i] + v,
    decreases s.len(),
{
    let n = s.len() as int;
    if i == n - 1 {
        assert(s.update(i, v).drop_last() =~= s.drop_last());
        assert(s.update(i, v).last() == v);
    } else {
        assert(s.update(i, v).drop_last() =~= s.drop_last().update(i, v));
        lemma_seq_sum_update(s.drop_last(), i, v);
        assert(s.update(i, v).last() == s.last());
    }
}

proof fn lemma_seq_sum_swap(s: Seq<int>, i: int, j: int)
    requires
        0 <= i < s.len(),
        0 <= j < s.len(),
        i != j,
    ensures
        crate::cubie::seq_sum(s.update(i, s[j]).update(j, s[i])) == crate::cubie::seq_sum(s),
{
    lemma_seq_sum_update(s, i, s[j]);
    lemma_seq_sum_update(s.update(i, s[j]), j, s[i]);
    assert(s.update(i, s[j])[j] == s[j]);
}

/// Reordering entries by a permutation leaves their sum unchanged.
proof fn lemma_comp_sum_from(vals: Seq<int>, b: Seq<int>, i: int)
    requires
        0 <= i,
        vals.len() == b.len(),
        b.len() <= 12,
        no_dups(b),
        forall|t: int| 0 <= t < b.len() ==> 0 <= #[trigger] b[t] < b.len(),
        forall|t: int| 0 <= t < i ==> #[trigger] b[t] == t,
    ensures
        crate::cubie::seq_sum(comp_seq(vals, b)) == crate::cubie::seq_sum(vals),
    decreases b.len() - i,
{
    let n = b.len() as int;
    if i >= n {
        assert(comp_seq(vals, b) =~= vals);
    } else if b[i] == i {
        lemma_comp_sum_from(vals, b, i + 1);
    } else {
        assert(exists|t: int| i + 1 <= t < n && #[trigger] b[t] == i) by {
            lemma_perm_hits_all(b, i);
            let t = choose|t: int| 0 <= t < n && #[trigger] b[t] == i;
            assert(t >= i) by {
                if t < i {
                    assert(b[t] == t);
                }
            }
            assert(t != i);
            assert(i + 1 <= t < n && b[t] == i);
        }
        lemma_find_pos_finds(b, i, i + 1);
        let j = crate::cubie::find_pos(b, i, i + 1);
        let b2 = b.update(i, b[j]).update(j, b[i]);
        assert(no_dups(b2)) by {
            assert forall|x: int, y: int| 0 <= x < y < n implies b2[x] != b2[y] by {
                assert(b[x] != b[y]);
            }
        }
        assert(forall|t: int| 0 <= t < n ==> 0 <= #[trigger] b2[t] < n);
        assert(forall|t: int| 0 <= t < i + 1 ==> #[trigger] b2[t] == t);
        lemma_comp_sum_from(vals, b2, i + 1);
        let c = comp_seq(vals, b);
        assert(comp_seq(vals, b2) =~= c.update(i, c[j]).update(j, c[i]));
        lemma_seq_sum_swap(c, i, j);
    }
}

/// Reordering entries by a permutation leaves their sum unchanged.
pub proof fn lemma_comp_sum(vals: Seq<int>, b: Seq<int>)
    requires
        vals.len() == b.len(),
        b.len() <= 12,
        no_dups(b),
        forall|t: int| 0 <= t < b.len() ==> 0 <= #[trigger] b[t] < b.len(),
    ensures
        crate::cubie::seq_sum(comp_seq(vals, b)) == crate::cubie::seq_sum(vals),
{
    lemma_comp_sum_from(vals, b, 0);
}

/// Adding two entry lists position by position, each sum reduced modulo `m`,
/// gives a list whose total agrees modulo `m` with the totals added.
pub proof fn lemma_sum_zip_mod(a: Seq<int>, b: Seq<int>, m: int)
    requires
        a.len() == b.len(),
        m >= 2,
    ensures
        crate::cubie::seq_sum(Seq::new(a.len(), |k: int| (a[k] + b[k]) % m)) % m == (
        crate::cubie::seq_sum(a) + crate::cubie::seq_sum(b)) % m,
    decreases a.len(),
{
    let n = a.len() as int;
    let z = Seq::new(a.len(), |k: int| (a[k] + b[k]) % m);
    if n > 0 {
        let ad = a.drop_last();
        let bd = b.drop_last();
        let zd = Seq::new(ad.len(), |k: int| (ad[k] + bd[k]) % m);
        assert(z.drop_last() =~= zd);
        lemma_sum_zip_mod(ad, bd, m);
        let x = crate::cubie::seq_sum(zd);
        let sa = crate::cubie::seq_sum(ad);
        let sb = crate::cubie::seq_sum(bd);
        let al = a.last();
        let bl = b.last();
        assert(crate::cubie::seq_sum(z) == x + (al + bl) % m);
        assert((x + (al + bl) % m) % m == (sa + sb + al + bl) % m) by {
            vstd::arithmetic::div_mod::lemma_add_mod_noop(x, (al + bl) % m, m);
            vstd::arithmetic::div_mod::lemma_mod_twice(al + bl, m);
            vstd::arithmetic::div_mod::lemma_add_mod_noop(sa + sb, al + bl, m);
            assert((x % m + ((al + bl) % m) % m) % m == (x % m + (al + bl) % m) % m);
            assert(x % m == (sa + sb) % m);
        }
        assert(crate::cubie::seq_sum(a) + crate::cubie::seq_sum(b) == sa + sb + al + bl);
    }
}

/// Composition preserves solvability: doing one solvable state's moves after
/// another's leaves the orientation totals and the matched permutation
/// parities intact.
pub proof fn lemma_compose_solvable(a: crate::cubie::CubeView, b: crate::cubie::CubeView)
    requires
        crate::cubie::solvable(a),
        crate::cubie::solvable(b),
    ensures
        crate::cubie::solvable(crate::cubie::compose(a, b)),
{
    let c = crate::cubie::compose(a, b);
    crate::cubie::lemma_compose_wf(a, b);
    crate::cubie::lemma_compose_no_dups(a, b);
    let pco = comp_seq(a.co, b.cp);
    assert(crate::cubie::seq_sum(c.co) % 3 == 0) by {
        assert(c.co =~= Seq::new(pco.len(), |k: int| (pco[k] + b.co[k]) % 3));
        lemma_sum_zip_mod(pco, b.co, 3);
        lemma_comp_sum(a.co, b.cp);
        let x = crate::cubie::seq_sum(a.co);
        let y = crate::cubie::seq_sum(b.co);
        vstd::arithmetic::div_mod::lemma_add_mod_noop(x, y, 3);
    }
    let peo = comp_seq(a.eo, b.ep);
    assert(crate::cubie::seq_sum(c.eo) % 2 == 0) by {
        assert(c.eo =~= Seq::new(peo.len(), |k: int| (peo[k] + b.eo[k]) % 2));
        lemma_sum_zip_mod(peo, b.eo, 2);
        lemma_comp_sum(a.eo, b.ep);
        let x = crate::cubie::seq_sum(a.eo);
        let y = crate::cubie::seq_sum(b.eo);
        vstd::arithmetic::div_mod::lemma_add_mod_noop(x, y, 2);
    }
    assert(c.cp =~= comp_seq(a.cp, b.cp));
    assert(c.ep =~= comp_seq(a.ep, b.ep));
    lemma_comp_parity(a.cp, b.cp);
    lemma_comp_parity(a.ep, b.ep);
    let xc = crate::cubie::swap_count(c.cp, 0);
    let xe = crate::cubie::swap_count(c.ep, 0);
    let pc = crate::cubie::swap_count(a.cp, 0);
    let pe = crate::cubie::swap_count(a.ep, 0);
    let qc = crate::cubie::swap_count(b.cp, 0);
    let qe = crate::cubie::swap_count(b.ep, 0);
    assert(xc % 2 == xe % 2) by {
        vstd::arithmetic::div_mod::lemma_fundamental_div_mod(xc + pc + qc, 2);
        vstd::arithmetic::div_mod::lemma_fundamental_div_mod(xe + pe + qe, 2);
        vstd::arithmetic::div_mod::lemma_fundamental_div_mod(pc, 2);
        vstd::arithmetic::div_mod::lemma_fundamental_div_mod(pe, 2);
        vstd::arithmetic::div_mod::lemma_fundamental_div_mod(qc, 2);
        vstd::arithmetic::div_mod::lemma_fundamental_div_mod(qe, 2);
        let k1 = (xc + pc + qc) / 2;
        let k2 = (xe + pe + qe) / 2;
        let d = (k1 - pc / 2 - qc / 2) - (k2 - pe / 2 - qe / 2);
        assert(xc == xe + 2 * d);
        vstd::arithmetic::div_mod::lemma_mod_multiples_vanish(d, xe, 2);
    }
}

/// Two totals whose offsets agree in parity, each even after its offset is
/// added, agree in parity themselves.
pub proof fn lemma_parity_match(x: int, y: int, a: int, b: int)
    requires
        (x + a) % 2 == 0,
        (y + b) % 2 == 0,
        a % 2 == b % 2,
    ensures
        x % 2 == y % 2,
{
    vstd::arithmetic::div_mod::lemma_fundamental_div_mod(x + a, 2);
    vstd::arithmetic::div_mod::lemma_fundamental_div_mod(y + b, 2);
    vstd::arithmetic::div_mod::lemma_fundamental_div_mod(a, 2);
    vstd::arithmetic::div_mod::lemma_fundamental_div_mod(b, 2);
    let d = ((x + a) / 2 - a / 2) - ((y + b) / 2 - b / 2);
    assert(x == y + 2 * d);
    vstd::arithmetic::div_mod::lemma_mod_multiples_vanish(d, y, 2);
}

spec fn has_val(s: Seq<int>, v: int, from: int, to: int) -> bool {
    exists|k: int| from <= k < to && s[k] == v
}

proof fn lemma_cnt_below_none(s: Seq<int>, v: int, from: int, to: int)
    requires
        forall|t: int| from <= t < to ==> #[trigger] s[t] >= v,
    ensures
        cnt_below(s, v, from, to) == 0,
    decreases to - from,
{
    if to > from {
        lemma_cnt_below_none(s, v, from, to - 1);
    }
}

proof fn lemma_cnt_below_succ(s: Seq<int>, v: int, from: int, to: int)
    requires
        0 <= from <= to <= s.len(),
        no_dups(s),
    ensures
        cnt_below(s, v + 1, from, to) == cnt_below(s, v, from, to) + (if has_val(s, v, from, to) {
            1int
        } else {
            0int
        }),
    decreases to - from,
{
    if to > from {
        lemma_cnt_below_succ(s, v, from, to - 1);
        if s[to - 1] == v {
            assert(has_val(s, v, from, to));
            assert(!has_val(s, v, from, to - 1)) by {
                if has_val(s, v, from, to - 1) {
                    let k = choose|k: int| from <= k < to - 1 && s[k] == v;
                    assert(s[k] != s[to - 1]);
                }
            }
        } else {
            assert(has_val(s, v, from, to) == has_val(s, v, from, to - 1)) by {
                if has_val(s, v, from, to) {
                    let k = choose|k: int| from <= k < to && s[k] == v;
                    assert(from <= k < to - 1 && s[k] == v);
                }
            }
        }
    }
}

/// In a duplicate-free cover of `0 .. n`, exactly `d` entries lie below `d`.
proof fn lemma_cnt_below_perm(s: Seq<int>, d: int)
    requires
        s.len() <= 12,
        no_dups(s),
        forall|t: int| 0 <= t < s.len() ==> 0 <= #[trigger] s[t] < s.len(),
        0 <= d <= s.len(),
    ensures
        cnt_below(s, d, 0, s.len() as int) == d,
    decreases d,
{
    let n = s.len() as int;
    if d == 0 {
        lemma_cnt_below_none(s, 0, 0, n);
    } else {
        lemma_cnt_below_perm(s, d - 1);
        lemma_cnt_below_succ(s, d - 1, 0, n);
        assert(has_val(s, d - 1, 0, n)) by {
            lemma_perm_hits_all(s, d - 1);
        }
    }
}

proof fn lemma_cnt_lt_head(rest: Seq<int>, d: int, j: int)
    requires
        1 <= j <= rest.len() + 1,
    ensures
        cnt_lt(seq![d] + bump_ge(rest, d), 0, j) == cnt_below(rest, d, 0, j - 1),
    decreases j,
{
    let p = seq![d] + bump_ge(rest, d);
    if j > 1 {
        lemma_cnt_lt_head(rest, d, j - 1);
        assert(p[j - 1] == bump_ge(rest, d)[j - 2]);
        assert((p[j - 1] < d) == (rest[j - 2] < d));
    }
}

proof fn lemma_cnt_lt_shift(rest: Seq<int>, d: int, i: int, j: int)
    requires
        1 <= i,
        i + 1 <= j <= rest.len() + 1,
    ensures
        cnt_lt(seq![d] + bump_ge(rest, d), i, j) == cnt_lt(rest, i - 1, j - 1),
    decreases j,
{
    let p = seq![d] + bump_ge(rest, d);
    let b = bump_ge(rest, d);
    if j > i + 1 {
        lemma_cnt_lt_shift(rest, d, i, j - 1);
        assert(p[j - 1] == b[j - 2] && p[i] == b[i - 1]);
        assert((b[j - 2] < b[i - 1]) == (rest[j - 2] < rest[i - 1]));
    }
}

proof fn lemma_lehmer_prefix_cons(rest: Seq<int>, d: int, i: int)
    requires
        rest.len() + 1 <= 12,
        no_dups(rest),
        forall|t: int| 0 <= t < rest.len() ==> 0 <= #[trigger] rest[t] < rest.len(),
        0 <= d <= rest.len(),
        0 <= i <= rest.len(),
    ensures
        lehmer_prefix(seq![d] + bump_ge(rest, d), i + 1) == d * ff(rest.len() as int, i)
            + lehmer_prefix(rest, i),
    decreases i,
{
    let p = seq![d] + bump_ge(rest, d);
    let n = rest.len() as int;
    assert(p.len() == n + 1);
    if i == 0 {
        assert(lehmer_prefix(p, 1) == lehmer_prefix(p, 0) * (n + 1) + cnt_lt(p, 0, n + 1));
        lemma_cnt_lt_head(rest, d, n + 1);
        lemma_cnt_below_perm(rest, d);
        assert(ff(n, 0) == 1);
    } else {
        lemma_lehmer_prefix_cons(rest, d, i - 1);
        let a = lehmer_prefix(p, i);
        let b = lehmer_prefix(rest, i - 1);
        let w = n + 1 - i;
        assert(lehmer_prefix(p, i + 1) == a * w + cnt_lt(p, i, n + 1));
        assert(lehmer_prefix(rest, i) == b * w + cnt_lt(rest, i - 1, n));
        lemma_cnt_lt_shift(rest, d, i, n + 1);
        assert(a == d * ff(n, i - 1) + b);
        assert(ff(n, i) == w * ff(n, i - 1));
        assert((d * ff(n, i - 1) + b) * w == d * (w * ff(n, i - 1)) + b * w) by (nonlinear_arith);
    }
}

/// The Lehmer rank of a front digit `d` followed by the shifted image of a
/// shorter arrangement is `d` factorial-weighted plus the shorter rank.
proof fn lemma_lehmer_rank_cons(rest: Seq<int>, d: int)
    requires
        rest.len() + 1 <= 12,
        no_dups(rest),
        forall|t: int| 0 <= t < rest.len() ==> 0 <= #[trigger] rest[t] < rest.len(),
        0 <= d <= rest.len(),
    ensures
        lehmer_rank(seq![d] + bump_ge(rest, d)) == d * fact(rest.len()) + lehmer_rank(rest),
{
    let n = rest.len() as int;
    lemma_lehmer_prefix_cons(rest, d, n);
    lemma_ff_fact(rest.len(), rest.len());
    assert(fact((rest.len() - rest.len()) as nat) == 1);
}

proof fn lemma_rank_decode_mod(m: nat, idx: int)
    requires
        idx >= 0,
        m <= 12,
    ensures
        lehmer_rank(perm_decoded(m, idx)) == idx % fact(m),
    decreases m,
{
    if m == 0 {
        assert(lehmer_rank(perm_decoded(0, idx)) == 0);
        assert(fact(0) == 1);
        vstd::arithmetic::div_mod::lemma_fundamental_div_mod(idx, 1);
        vstd::arithmetic::div_mod::lemma_mod_bound(idx, 1);
    } else if m == 1 {
        let p = perm_decoded(1, idx);
        assert(lehmer_rank(p) == lehmer_prefix(p, 0) * 1 + cnt_lt(p, 0, 1));
        assert(fact(0) == 1);
        assert(fact(1) == 1);
        vstd::arithmetic::div_mod::lemma_mod_bound(idx, 1);
    } else {
        let f = fact((m - 1) as nat);
        lemma_fact_pos((m - 1) as nat);
        let d = (idx / f) % (m as int);
        vstd::arithmetic::div_mod::lemma_div_pos_is_pos(idx, f);
        vstd::arithmetic::div_mod::lemma_mod_bound(idx / f, m as int);
        let rest = perm_decoded((m - 1) as nat, idx);
        lemma_perm_decoded_props((m - 1) as nat, idx);
        lemma_rank_decode_mod((m - 1) as nat, idx);
        lemma_lehmer_rank_cons(rest, d);
        assert(lehmer_rank(perm_decoded(m, idx)) == d * f + idx % f);
        vstd::arithmetic::div_mod::lemma_mod_breakdown(idx, f, m as int);
        assert(idx % (f * m) == f * ((idx / f) % (m as int)) + idx % f);
        assert(fact(m) == m * f);
        vstd::arithmetic::mul::lemma_mul_is_commutative(f, m as int);
        vstd::arithmetic::mul::lemma_mul_is_commutative(f, d);
    }
}

/// Decoding any index below the factorial and ranking the result gives the
/// index back: the Lehmer decode is a right inverse of the rank.
pub proof fn lemma_lehmer_decode_rank(m: nat, idx: int)
    requires
        m <= 12,
        0 <= idx < fact(m),
    ensures
        lehmer_rank(perm_decoded(m, idx)) == idx,
{
    lemma_rank_decode_mod(m, idx);
    lemma_fact_pos(m);
    vstd::arithmetic::div_mod::lemma_small_mod(idx as nat, fact(m) as nat);
}

proof fn lemma_decode_mod(m: nat, idx: int)
    requires
        idx >= 0,
    ensures
        perm_decoded(m, idx) == perm_decoded(m, idx % fact(m)),
    decreases m,
{
    lemma_fact_pos(m);
    if m >= 2 {
        let f = fact((m - 1) as nat);
        lemma_fact_pos((m - 1) as nat);
        let r = idx % fact(m);
        vstd::arithmetic::div_mod::lemma_mod_bound(idx, fact(m));
        vstd::arithmetic::div_mod::lemma_mod_breakdown(idx, f, m as int);
        vstd::arithmetic::mul::lemma_mul_is_commutative(f, m as int);
        assert(r == f * ((idx / f) % (m as int)) + idx % f);
        vstd::arithmetic::div_mod::lemma_mod_bound(idx, f);
        vstd::arithmetic::div_mod::lemma_mod_bound(idx / f, m as int);
        vstd::arithmetic::div_mod::lemma_div_pos_is_pos(idx, f);
        vstd::arithmetic::mul::lemma_mul_is_commutative(f, (idx / f) % (m as int));
        vstd::arithmetic::div_mod::lemma_fundamental_div_mod_converse(
            r,
            f,
            (idx / f) % (m as int),
            idx % f,
        );
        assert(r / f == (idx / f) % (m as int));
        assert(r % f == idx % f);
        vstd::arithmetic::div_mod::lemma_small_mod(((idx / f) % (m as int)) as nat, m as nat);
        assert((r / f) % (m as int) == (idx / f) % (m as int));
        lemma_decode_mod((m - 1) as nat, idx);
        lemma_decode_mod((m - 1) as nat, r);
        assert(idx % f >= 0);
        assert(perm_decoded((m - 1) as nat, idx) == perm_decoded((m - 1) as nat, idx % f));
        assert(perm_decoded((m - 1) as nat, r) == perm_decoded((m - 1) as nat, r % f));
    }
}

/// The tail of an arrangement with its front entry's influence removed:
/// entries above the front entry come down by one.
pub open spec fn unbump_tail(s: Seq<int>) -> Seq<int> {
    Seq::new((s.len() - 1) as nat, |i: int| if s[i + 1] > s[0] {
        s[i + 1] - 1
    } else {
        s[i + 1]
    })
}

proof fn lemma_unbump_props(s: Seq<int>)
    requires
        s.len() >= 1,
        no_dups(s),
        forall|t: int| 0 <= t < s.len() ==> 0 <= #[trigger] s[t] < s.len(),
    ensures
        unbump_tail(s).len() == s.len() - 1,
        no_dups(unbump_tail(s)),
        forall|t: int|
            0 <= t < s.len() - 1 ==> 0 <= #[trigger] unbump_tail(s)[t] < s.len() - 1,
        s == seq![s[0]] + bump_ge(unbump_tail(s), s[0]),
{
    let t = unbump_tail(s);
    let n = s.len() as int;
    let d = s[0];
    assert forall|k: int| 0 <= k < n - 1 implies 0 <= #[trigger] t[k] < n - 1 by {
        assert(s[k + 1] != d);
    }
    assert forall|x: int, y: int| 0 <= x < y < n - 1 implies t[x] != t[y] by {
        assert(s[x + 1] != s[y + 1]);
        assert(s[x + 1] != d && s[y + 1] != d);
    }
    assert(s =~= seq![d] + bump_ge(t, d)) by {
        assert forall|k: int| 0 <= k < n implies s[k] == (seq![d] + bump_ge(t, d))[k] by {
            if k >= 1 {
                assert(s[k] != d);
                assert((seq![d] + bump_ge(t, d))[k] == bump_ge(t, d)[k - 1]);
            }
        }
    }
}

/// Ranking an arrangement and decoding the rank gives the arrangement back:
/// the Lehmer decode is a left inverse of the rank, so the rank is a
/// bijection between arrangements and indices below the factorial.
pub proof fn lemma_lehmer_rank_decode(s: Seq<int>)
    requires
        s.len() <= 12,
        no_dups(s),
        forall|t: int| 0 <= t < s.len() ==> 0 <= #[trigger] s[t] < s.len(),
    ensures
        perm_decoded(s.len() as nat, lehmer_rank(s)) == s,
    decreases s.len(),
{
    let n = s.len() as int;
    if n == 0 {
        assert(perm_decoded(0, lehmer_rank(s)) =~= s);
    } else if n == 1 {
        assert(s[0] == 0);
        assert(lehmer_rank(s) >= 0) by {
            lemma_lehmer_rank_bound(s);
        }
        assert(perm_decoded(1, lehmer_rank(s)) =~= s);
    } else {
        let d = s[0];
        let t = unbump_tail(s);
        lemma_unbump_props(s);
        lemma_lehmer_rank_cons(t, d);
        let f = fact((n - 1) as nat);
        lemma_fact_pos((n - 1) as nat);
        let idx = lehmer_rank(s);
        assert(idx == d * f + lehmer_rank(t));
        lemma_lehmer_rank_bound(t);
        vstd::arithmetic::div_mod::lemma_fundamental_div_mod_converse(idx, f, d, lehmer_rank(t));
        assert(idx / f == d && idx % f == lehmer_rank(t));
        lemma_lehmer_rank_bound(s);
        vstd::arithmetic::div_mod::lemma_small_mod(d as nat, n as nat);
        assert((idx / f) % n == d);
        lemma_decode_mod((n - 1) as nat, idx);
        lemma_lehmer_rank_decode(t);
        assert(perm_decoded((n - 1) as nat, idx) == perm_decoded((n - 1) as nat, lehmer_rank(t)));
        assert(perm_decoded(n as nat, idx) == seq![d] + bump_ge(t, d));
    }
}

} // verus!
