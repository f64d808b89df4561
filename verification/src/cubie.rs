//! Cube states on the cubie level: permutations and orientations of the
//! 8 corners and 12 edges, with the group structure (composition) that
//! face turns generate.

use vstd::prelude::*;

use crate::error::Error;

verus! {

broadcast use vstd::array::group_array_axioms;

/// The 8 corner cubies, named by the three faces they touch.
#[derive(Clone, Copy, PartialEq, Eq, Structural, Debug)]
pub enum Corner {
    UBL,
    UBR,
    UFR,
    UFL,
    DFL,
    DFR,
    DBR,
    DBL,
}

/// The 12 edge cubies, named by the two faces they touch. The first four
/// (BL, BR, FR, FL) form the E slice; every coordinate depends on this
/// ordering.
#[derive(Clone, Copy, PartialEq, Eq, Structural, Debug)]
pub enum Edge {
    BL,
    BR,
    FR,
    FL,
    UB,
    UR,
    UF,
    UL,
    DF,
    DR,
    DB,
    DL,
}

impl Corner {
    /// The fixed integer of this corner in the 0..8 ordering.
    pub open spec fn idx(self) -> int {
        match self {
            Corner::UBL => 0,
            Corner::UBR => 1,
            Corner::UFR => 2,
            Corner::UFL => 3,
            Corner::DFL => 4,
            Corner::DFR => 5,
            Corner::DBR => 6,
            Corner::DBL => 7,
        }
    }

    pub fn index(self) -> (r: usize)
        ensures
            r == self.idx(),
            r < 8,
    {
        match self {
            Corner::UBL => 0,
            Corner::UBR => 1,
            Corner::UFR => 2,
            Corner::UFL => 3,
            Corner::DFL => 4,
            Corner::DFR => 5,
            Corner::DBR => 6,
            Corner::DBL => 7,
        }
    }

    /// The corner with the given integer, for values below 8.
    pub fn from_index(value: u8) -> (r: Corner)
        requires
            value < 8,
        ensures
            r.idx() == value,
    {
        match value {
            0 => Corner::UBL,
            1 => Corner::UBR,
            2 => Corner::UFR,
            3 => Corner::UFL,
            4 => Corner::DFL,
            5 => Corner::DFR,
            6 => Corner::DBR,
            _ => Corner::DBL,
        }
    }

    /// Fails exactly on values outside 0..8.
    pub fn try_from(value: u8) -> (r: Result<Corner, Error>)
        ensures
            value < 8 ==> (r matches Ok(c) && c.idx() == value),
            value >= 8 ==> (r matches Err(e) && e == Error::InvalidCorner),
    {
        if value < 8 {
            Ok(Corner::from_index(value))
        } else {
            Err(Error::InvalidCorner)
        }
    }
}

impl Edge {
    /// The fixed integer of this edge in the 0..12 ordering.
    pub open spec fn idx(self) -> int {
        match self {
            Edge::BL => 0,
            Edge::BR => 1,
            Edge::FR => 2,
            Edge::FL => 3,
            Edge::UB => 4,
            Edge::UR => 5,
            Edge::UF => 6,
            Edge::UL => 7,
            Edge::DF => 8,
            Edge::DR => 9,
            Edge::DB => 10,
            Edge::DL => 11,
        }
    }

    pub fn index(self) -> (r: usize)
        ensures
            r == self.idx(),
            r < 12,
    {
        match self {
            Edge::BL => 0,
            Edge::BR => 1,
            Edge::FR => 2,
            Edge::FL => 3,
            Edge::UB => 4,
            Edge::UR => 5,
            Edge::UF => 6,
            Edge::UL => 7,
            Edge::DF => 8,
            Edge::DR => 9,
            Edge::DB => 10,
            Edge::DL => 11,
        }
    }

    /// The edge with the given integer, for values below 12.
    pub fn from_index(value: u8) -> (r: Edge)
        requires
            value < 12,
        ensures
            r.idx() == value,
    {
        match value {
            0 => Edge::BL,
            1 => Edge::BR,
            2 => Edge::FR,
            3 => Edge::FL,
            4 => Edge::UB,
            5 => Edge::UR,
            6 => Edge::UF,
            7 => Edge::UL,
            8 => Edge::DF,
            9 => Edge::DR,
            10 => Edge::DB,
            _ => Edge::DL,
        }
    }

    /// Fails exactly on values outside 0..12.
    pub fn try_from(value: u8) -> (r: Result<Edge, Error>)
        ensures
            value < 12 ==> (r matches Ok(c) && c.idx() == value),
            value >= 12 ==> (r matches Err(e) && e == Error::InvalidEdge),
    {
        if value < 12 {
            Ok(Edge::from_index(value))
        } else {
            Err(Error::InvalidEdge)
        }
    }
}

/// The mathematical model of a cubie-level state: each field is the sequence
/// of integers that the corresponding array of a `CubieCube` holds.
#[verifier::ext_equal]
pub struct CubeView {
    pub cp: Seq<int>,
    pub co: Seq<int>,
    pub ep: Seq<int>,
    pub eo: Seq<int>,
}

impl CubeView {
    /// Well-formed: the four sequences have the cube's dimensions and every
    /// entry is in range. (Permutation properties are stated separately;
    /// coordinate decoding legitimately builds states whose `cp` or `ep`
    /// repeat a cubie.)
    pub open spec fn wf(self) -> bool {
        &&& self.cp.len() == 8
        &&& self.co.len() == 8
        &&& self.ep.len() == 12
        &&& self.eo.len() == 12
        &&& (forall|i: int| 0 <= i < 8 ==> 0 <= #[trigger] self.cp[i] < 8)
        &&& (forall|i: int| 0 <= i < 8 ==> 0 <= #[trigger] self.co[i] < 3)
        &&& (forall|i: int| 0 <= i < 12 ==> 0 <= #[trigger] self.ep[i] < 12)
        &&& (forall|i: int| 0 <= i < 12 ==> 0 <= #[trigger] self.eo[i] < 2)
    }
}

/// The solved state: identity permutations, all orientations zero.
pub open spec fn solved_view() -> CubeView {
    CubeView {
        cp: Seq::new(8, |i: int| i),
        co: Seq::new(8, |i: int| 0),
        ep: Seq::new(12, |i: int| i),
        eo: Seq::new(12, |i: int| 0),
    }
}

/// Group composition: `compose(a, b)` is the state reached by doing `b` to
/// the solved cube and then `a`; position `i` receives the cubie that `a`
/// holds at the position `b` sends `i` to, and orientations add.
pub open spec fn compose(a: CubeView, b: CubeView) -> CubeView {
    CubeView {
        cp: Seq::new(8, |i: int| a.cp[b.cp[i]]),
        co: Seq::new(8, |i: int| (a.co[b.cp[i]] + b.co[i]) % 3),
        ep: Seq::new(12, |i: int| a.ep[b.ep[i]]),
        eo: Seq::new(12, |i: int| (a.eo[b.ep[i]] + b.eo[i]) % 2),
    }
}

/// Composition preserves well-formedness.
pub proof fn lemma_compose_wf(a: CubeView, b: CubeView)
    requires
        a.wf(),
        b.wf(),
    ensures
        compose(a, b).wf(),
{
}

/// Composition is associative on well-formed states.
pub proof fn lemma_compose_assoc(a: CubeView, b: CubeView, c: CubeView)
    requires
        a.wf(),
        b.wf(),
        c.wf(),
    ensures
        compose(compose(a, b), c) == compose(a, compose(b, c)),
{
    let l = compose(compose(a, b), c);
    let r = compose(a, compose(b, c));
    assert forall|i: int| 0 <= i < 8 implies l.co[i] == r.co[i] by {
        let j = c.cp[i];
        let k = b.cp[j];
        assert(l.co[i] == ((a.co[k] + b.co[j]) % 3 + c.co[i]) % 3);
        assert(r.co[i] == (a.co[k] + (b.co[j] + c.co[i]) % 3) % 3);
        let x = a.co[k];
        let y = b.co[j];
        let z = c.co[i];
        assert(((x + y) % 3 + z) % 3 == (x + (y + z) % 3) % 3) by (nonlinear_arith)
            requires 0 <= x < 3 && 0 <= y < 3 && 0 <= z < 3;
    }
    assert forall|i: int| 0 <= i < 12 implies l.eo[i] == r.eo[i] by {
        let j = c.ep[i];
        let k = b.ep[j];
        let x = a.eo[k];
        let y = b.eo[j];
        let z = c.eo[i];
        assert(((x + y) % 2 + z) % 2 == (x + (y + z) % 2) % 2) by (nonlinear_arith)
            requires 0 <= x < 2 && 0 <= y < 2 && 0 <= z < 2;
    }
    assert(l =~= r);
}

/// The solved state is a two-sided identity for composition.
pub proof fn lemma_compose_identity(a: CubeView)
    requires
        a.wf(),
    ensures
        compose(solved_view(), a) == a,
        compose(a, solved_view()) == a,
{
    assert(compose(solved_view(), a) =~= a);
    assert(compose(a, solved_view()) =~= a);
}

/// Cube on the cubie level.
#[derive(Clone, Copy, PartialEq, Debug)]
pub struct CubieCube {
    /// Corner permutation: `cp[i]` is the corner that occupies position `i`.
    pub cp: [Corner; 8],
    /// Corner orientation: 0 oriented, 1 twisted clockwise, 2 twisted
    /// counter-clockwise.
    pub co: [u8; 8],
    /// Edge permutation: `ep[i]` is the edge that occupies position `i`.
    pub ep: [Edge; 12],
    /// Edge orientation: 0 oriented, 1 flipped.
    pub eo: [u8; 12],
}

impl View for CubieCube {
    type V = CubeView;

    open spec fn view(&self) -> CubeView {
        CubeView {
            cp: Seq::new(8, |i: int| self.cp@[i].idx()),
            co: Seq::new(8, |i: int| self.co@[i] as int),
            ep: Seq::new(12, |i: int| self.ep@[i].idx()),
            eo: Seq::new(12, |i: int| self.eo@[i] as int),
        }
    }
}

impl CubieCube {
    /// Well-formed: every orientation entry is in range. (The permutation
    /// arrays are in range by construction.)
    pub open spec fn wf(self) -> bool {
        self@.wf()
    }

    /// The solved cube.
    pub fn solved() -> (r: CubieCube)
        ensures
            r@ == solved_view(),
    {
        let r = CubieCube {
            cp: [
                Corner::UBL,
                Corner::UBR,
                Corner::UFR,
                Corner::UFL,
                Corner::DFL,
                Corner::DFR,
                Corner::DBR,
                Corner::DBL,
            ],
            co: [0, 0, 0, 0, 0, 0, 0, 0],
            ep: [
                Edge::BL,
                Edge::BR,
                Edge::FR,
                Edge::FL,
                Edge::UB,
                Edge::UR,
                Edge::UF,
                Edge::UL,
                Edge::DF,
                Edge::DR,
                Edge::DB,
                Edge::DL,
            ],
            eo: [0, 0, 0, 0, 0, 0, 0, 0, 0, 0, 0, 0],
        };
        proof {
            assert(r@.cp =~= solved_view().cp);
            assert(r@.co =~= solved_view().co);
            assert(r@.ep =~= solved_view().ep);
            assert(r@.eo =~= solved_view().eo);
            assert(r@ =~= solved_view());
        }
        r
    }

    /// Group composition: `self.mul(rhs)` is the state reached by doing
    /// `rhs` to the solved cube and then `self`.
    pub fn mul(self, rhs: CubieCube) -> (r: CubieCube)
        requires
            self.wf(),
            rhs.wf(),
        ensures
            r@ == compose(self@, rhs@),
            r.wf(),
    {
        let mut res = CubieCube::solved();
        let ghost goal = compose(self@, rhs@);

        for i in 0..8
            invariant
                self.wf(),
                rhs.wf(),
                goal == compose(self@, rhs@),
                forall|k: int| 0 <= k < i ==> (#[trigger] res@.cp[k]) == goal.cp[k],
                forall|k: int| 0 <= k < i ==> (#[trigger] res@.co[k]) == goal.co[k],
        {
            let ghost prev = res;
            let j = rhs.cp[i].index();
            proof {
                assert(j == rhs@.cp[i as int]);
                assert(self@.co[j as int] < 3);
                assert(rhs@.co[i as int] < 3);
            }
            res.cp[i] = self.cp[j];
            res.co[i] = (self.co[j] + rhs.co[i]) % 3;
            proof {
                assert forall|k: int| 0 <= k < i + 1 implies (#[trigger] res@.cp[k])
                    == goal.cp[k] by {
                    assert(res@.cp[k] == res.cp@[k].idx());
                    if k < i {
                        assert(prev@.cp[k] == goal.cp[k]);
                        assert(res.cp@[k] == prev.cp@[k]);
                    } else {
                        assert(res.cp@[k] == self.cp@[j as int]);
                        assert(goal.cp[k] == self@.cp[j as int]);
                    }
                }
                assert forall|k: int| 0 <= k < i + 1 implies (#[trigger] res@.co[k])
                    == goal.co[k] by {
                    assert(res@.co[k] == res.co@[k] as int);
                    if k < i {
                        assert(prev@.co[k] == goal.co[k]);
                        assert(res.co@[k] == prev.co@[k]);
                    }
                }
            }
        }
        for i in 0..12
            invariant
                self.wf(),
                rhs.wf(),
                goal == compose(self@, rhs@),
                forall|k: int| 0 <= k < 8 ==> (#[trigger] res@.cp[k]) == goal.cp[k],
                forall|k: int| 0 <= k < 8 ==> (#[trigger] res@.co[k]) == goal.co[k],
                forall|k: int| 0 <= k < i ==> (#[trigger] res@.ep[k]) == goal.ep[k],
                forall|k: int| 0 <= k < i ==> (#[trigger] res@.eo[k]) == goal.eo[k],
        {
            let ghost prev = res;
            let j = rhs.ep[i].index();
            proof {
                assert(j == rhs@.ep[i as int]);
                assert(self@.eo[j as int] < 2);
                assert(rhs@.eo[i as int] < 2);
            }
            res.ep[i] = self.ep[j];
            res.eo[i] = (self.eo[j] + rhs.eo[i]) % 2;
            proof {
                assert forall|k: int| 0 <= k < i + 1 implies (#[trigger] res@.ep[k])
                    == goal.ep[k] by {
                    assert(res@.ep[k] == res.ep@[k].idx());
                    if k < i {
                        assert(prev@.ep[k] == goal.ep[k]);
                        assert(res.ep@[k] == prev.ep@[k]);
                    } else {
                        assert(res.ep@[k] == self.ep@[j as int]);
                        assert(goal.ep[k] == self@.ep[j as int]);
                    }
                }
                assert forall|k: int| 0 <= k < i + 1 implies (#[trigger] res@.eo[k])
                    == goal.eo[k] by {
                    assert(res@.eo[k] == res.eo@[k] as int);
                    if k < i {
                        assert(prev@.eo[k] == goal.eo[k]);
                        assert(res.eo@[k] == prev.eo@[k]);
                    }
                }
                assert forall|k: int| 0 <= k < 8 implies (#[trigger] res@.cp[k])
                    == goal.cp[k] by {
                    assert(res.cp@[k] == prev.cp@[k]);
                    assert(prev@.cp[k] == goal.cp[k]);
                }
                assert forall|k: int| 0 <= k < 8 implies (#[trigger] res@.co[k])
                    == goal.co[k] by {
                    assert(res.co@[k] == prev.co@[k]);
                    assert(prev@.co[k] == goal.co[k]);
                }
            }
        }
        proof {
            assert(res@.cp =~= goal.cp);
            assert(res@.co =~= goal.co);
            assert(res@.ep =~= goal.ep);
            assert(res@.eo =~= goal.eo);
            assert(res@ =~= goal);
            lemma_compose_wf(self@, rhs@);
        }
        res
    }

    /// Whether this is the solved cube.
    pub fn is_solved(&self) -> (r: bool)
        ensures
            r == (self@ == solved_view()),
    {
        let mut ok = true;
        let ghost s = self@;
        for i in 0..8
            invariant
                s == self@,
                ok == (forall|k: int|
                    #![trigger s.cp[k]]
                    #![trigger s.co[k]]
                    0 <= k < i ==> (s.cp[k] == k && s.co[k] == 0)),
        {
            let bad = self.cp[i].index() != i || self.co[i] != 0;
            proof {
                assert(s.cp[i as int] == self.cp@[i as int].idx());
                assert(s.co[i as int] == self.co@[i as int] as int);
                assert(bad == !(s.cp[i as int] == i && s.co[i as int] == 0));
            }
            if bad {
                ok = false;
            }
        }
        if !ok {
            proof {
                let k = choose|k: int| 0 <= k < 8 && !(s.cp[k] == k && s.co[k] == 0);
                assert(s != solved_view());
            }
            return false;
        }
        for i in 0..12
            invariant
                s == self@,
                forall|k: int|
                    #![trigger s.cp[k]]
                    #![trigger s.co[k]]
                    0 <= k < 8 ==> (s.cp[k] == k && s.co[k] == 0),
                ok == (forall|k: int|
                    #![trigger s.ep[k]]
                    #![trigger s.eo[k]]
                    0 <= k < i ==> (s.ep[k] == k && s.eo[k] == 0)),
        {
            let bad = self.ep[i].index() != i || self.eo[i] != 0;
            proof {
                assert(s.ep[i as int] == self.ep@[i as int].idx());
                assert(s.eo[i as int] == self.eo@[i as int] as int);
                assert(bad == !(s.ep[i as int] == i && s.eo[i as int] == 0));
            }
            if bad {
                ok = false;
            }
        }
        proof {
            if ok {
                assert(s.cp =~= solved_view().cp);
                assert(s.co =~= solved_view().co);
                assert(s.ep =~= solved_view().ep);
                assert(s.eo =~= solved_view().eo);
                assert(s =~= solved_view());
            } else {
                assert(s != solved_view());
            }
        }
        ok
    }
}

/// Sum of a sequence of integers.
pub open spec fn seq_sum(s: Seq<int>) -> int
    decreases s.len(),
{
    if s.len() == 0 {
        0
    } else {
        seq_sum(s.drop_last()) + s.last()
    }
}

/// Sum of the clockwise twists `(3 - x) % 3` that would orient each corner.
pub open spec fn twist_sum(s: Seq<int>) -> int
    decreases s.len(),
{
    if s.len() == 0 {
        0
    } else {
        twist_sum(s.drop_last()) + (3 - s.last()) % 3
    }
}

/// No value occurs twice.
pub open spec fn no_dups(s: Seq<int>) -> bool {
    forall|i: int, j: int| 0 <= i < j < s.len() ==> s[i] != s[j]
}

/// The first position at or after `from` holding value `v`, or the length of
/// `p` if there is none.
pub open spec fn find_pos(p: Seq<int>, v: int, from: int) -> int
    decreases p.len() - from,
{
    if from < 0 || from >= p.len() {
        p.len() as int
    } else if p[from] == v {
        from
    } else {
        find_pos(p, v, from + 1)
    }
}

/// The number of transpositions the cycle-correcting procedure performs:
/// walk the positions left to right and, where position `i` does not hold
/// value `i`, swap it with the later position that does.
pub open spec fn swap_count(p: Seq<int>, i: int) -> int
    decreases p.len() - i,
    via swap_count_decreases
{
    if i < 0 || i >= p.len() {
        0
    } else if p[i] == i {
        swap_count(p, i + 1)
    } else {
        let j = find_pos(p, i, i + 1);
        if j < p.len() {
            1 + swap_count(p.update(i, p[j]).update(j, p[i]), i + 1)
        } else {
            swap_count(p, i + 1)
        }
    }
}

/// `find_pos` never answers before `from` nor past the end.
pub proof fn lemma_find_pos_range(p: Seq<int>, v: int, from: int)
    requires
        0 <= from <= p.len(),
    ensures
        from <= find_pos(p, v, from) <= p.len(),
    decreases p.len() - from,
{
    if from < p.len() && p[from] != v {
        lemma_find_pos_range(p, v, from + 1);
    }
}

#[via_fn]
proof fn swap_count_decreases(p: Seq<int>, i: int) {
    if 0 <= i < p.len() && p[i] != i {
        lemma_find_pos_range(p, i, i + 1);
        let j = find_pos(p, i, i + 1);
        if j < p.len() {
            assert(p.update(i, p[j]).update(j, p[i]).len() == p.len());
        }
    }
}

/// A cubie state counts as solvable exactly when both permutations are
/// duplicate-free, the corner twists sum to 0 mod 3, the edge flips sum to
/// 0 mod 2, and the two permutations have equal parity.
pub open spec fn solvable(v: CubeView) -> bool {
    &&& v.wf()
    &&& no_dups(v.cp)
    &&& no_dups(v.ep)
    &&& seq_sum(v.co) % 3 == 0
    &&& seq_sum(v.eo) % 2 == 0
    &&& swap_count(v.cp, 0) % 2 == swap_count(v.ep, 0) % 2
}

/// The view of a `Vec<u8>` as a sequence of integers.
pub open spec fn ints(s: Seq<u8>) -> Seq<int> {
    Seq::new(s.len(), |i: int| s[i] as int)
}

proof fn lemma_find_pos_from_scan(p: Seq<int>, v: int, from: int, j: int)
    requires
        0 <= from <= j <= p.len(),
        forall|k: int| from <= k < j ==> p[k] != v,
        j == p.len() || p[j] == v,
    ensures
        find_pos(p, v, from) == if j < p.len() { j } else { p.len() as int },
    decreases j - from,
{
    if from < j {
        lemma_find_pos_from_scan(p, v, from + 1, j);
    }
}

proof fn lemma_twist_sum_mod(s: Seq<int>)
    requires
        forall|i: int| 0 <= i < s.len() ==> 0 <= #[trigger] s[i] < 3,
    ensures
        (twist_sum(s) + seq_sum(s)) % 3 == 0,
    decreases s.len(),
{
    if s.len() > 0 {
        let d = s.drop_last();
        assert(forall|i: int| 0 <= i < d.len() ==> 0 <= #[trigger] d[i] < 3);
        lemma_twist_sum_mod(d);
        let x = s.last();
        assert(0 <= x < 3);
        let a = twist_sum(d) + seq_sum(d);
        assert(twist_sum(s) + seq_sum(s) == a + ((3 - x) % 3 + x));
        assert((3 - x) % 3 + x == if x == 0 { 0int } else { 3int });
        assert((a + 0) % 3 == 0);
        assert((a + 3) % 3 == 0) by {
            assert(a % 3 == 0);
            assert((a + 3) % 3 == a % 3) by (nonlinear_arith);
        }
    }
}

/// Whether any value occurs twice in the slice.
pub fn has_duplicates(items: &[u8]) -> (r: bool)
    ensures
        r == !no_dups(ints(items@)),
{
    let n = items.len();
    let mut found = false;
    for i in 0..n
        invariant
            n == items@.len(),
            found == !(forall|a: int, b: int| 0 <= a < b < n && a < i ==> ints(
                items@,
            )[a] != ints(items@)[b]),
    {
        for j in (i + 1)..n
            invariant
                i < n,
                n == items@.len(),
                found == !(forall|a: int, b: int|
                    (0 <= a < b < n && a < i) || (a == i && i < b < j) ==> ints(items@)[a]
                        != ints(items@)[b]),
        {
            if items[i] == items[j] {
                proof {
                    assert(ints(items@)[i as int] == ints(items@)[j as int]);
                }
                found = true;
            }
        }
    }
    proof {
        if found {
            assert(!no_dups(ints(items@)));
        } else {
            assert(no_dups(ints(items@)));
        }
    }
    found
}

/// Performs the cycle-correcting procedure on `vals` in place and returns
/// the number of swaps it made.
fn count_transpositions(vals: &mut Vec<u8>) -> (r: u8)
    requires
        old(vals)@.len() <= 16,
    ensures
        r as int == swap_count(ints(old(vals)@), 0),
        r as int <= old(vals)@.len(),
{
    let n = vals.len();
    let ghost orig = ints(vals@);
    let mut count: u8 = 0;
    for i in 0..n
        invariant
            n == vals@.len(),
            n <= 16,
            count as int <= i,
            swap_count(orig, 0) == count as int + swap_count(ints(vals@), i as int),
    {
        let ghost cur = ints(vals@);
        if vals[i] != i as u8 {
            assert(cur[i as int] != i);
            let mut j: usize = i + 1;
            while j < n && vals[j] != i as u8
                invariant
                    i + 1 <= j <= n,
                    n == vals@.len(),
                    cur == ints(vals@),
                    forall|k: int| i + 1 <= k < j ==> #[trigger] cur[k] != i,
                decreases n - j,
            {
                proof {
                    assert(cur[j as int] == vals@[j as int] as int);
                }
                j += 1;
            }
            proof {
                if j < n {
                    assert(cur[j as int] == i);
                }
                lemma_find_pos_from_scan(cur, i as int, i + 1, j as int);
            }
            if j < n {
                let a = vals[i];
                let b = vals[j];
                vals[i] = b;
                vals[j] = a;
                count += 1;
                proof {
                    let swapped = cur.update(i as int, cur[j as int]).update(j as int, cur[i as int]);
                    assert(ints(vals@) =~= swapped);
                    assert(swap_count(cur, i as int) == 1 + swap_count(swapped, i + 1));
                }
            } else {
                proof {
                    assert(swap_count(cur, i as int) == swap_count(cur, i + 1));
                }
            }
        } else {
            proof {
                assert(cur[i as int] == i);
                assert(swap_count(cur, i as int) == swap_count(cur, i + 1));
            }
        }
    }
    proof {
        assert(swap_count(ints(vals@), n as int) == 0);
    }
    count
}

impl CubieCube {
    /// The corner permutation as plain integers.
    fn corner_values(&self) -> (r: Vec<u8>)
        ensures
            ints(r@) == self@.cp,
            r@.len() == 8,
    {
        let mut vals: Vec<u8> = Vec::new();
        for i in 0..8
            invariant
                vals@.len() == i,
                forall|k: int| 0 <= k < i ==> ints(vals@)[k] == self@.cp[k],
        {
            let ghost prev = vals@;
            vals.push(self.cp[i].index() as u8);
            proof {
                assert forall|k: int| 0 <= k < i + 1 implies ints(vals@)[k] == self@.cp[k] by {
                    if k < i {
                        assert(ints(prev)[k] == self@.cp[k]);
                    }
                    assert(ints(vals@)[k] == vals@[k] as int);
                }
            }
        }
        proof {
            assert(ints(vals@) =~= self@.cp);
        }
        vals
    }

    /// The edge permutation as plain integers.
    fn edge_values(&self) -> (r: Vec<u8>)
        ensures
            ints(r@) == self@.ep,
            r@.len() == 12,
    {
        let mut vals: Vec<u8> = Vec::new();
        for i in 0..12
            invariant
                vals@.len() == i,
                forall|k: int| 0 <= k < i ==> ints(vals@)[k] == self@.ep[k],
        {
            let ghost prev = vals@;
            vals.push(self.ep[i].index() as u8);
            proof {
                assert forall|k: int| 0 <= k < i + 1 implies ints(vals@)[k] == self@.ep[k] by {
                    if k < i {
                        assert(ints(prev)[k] == self@.ep[k]);
                    }
                    assert(ints(vals@)[k] == vals@[k] as int);
                }
            }
        }
        proof {
            assert(ints(vals@) =~= self@.ep);
        }
        vals
    }

    /// The number of corner twists needed to orient the corners.
    pub fn count_corner_twist(&self) -> (r: u8)
        requires
            self.wf(),
        ensures
            r as int == twist_sum(self@.co),
    {
        let mut acc: u8 = 0;
        for i in 0..8
            invariant
                self.wf(),
                acc as int == twist_sum(self@.co.take(i as int)),
                acc <= 2 * i,
        {
            proof {
                assert(self@.co[i as int] == self.co@[i as int] as int);
            }
            acc = acc + (3 - self.co[i]) % 3;
            proof {
                let t = self@.co.take(i + 1);
                assert(t.drop_last() =~= self@.co.take(i as int));
                assert(t.last() == self@.co[i as int]);
            }
        }
        proof {
            assert(self@.co.take(8) =~= self@.co);
        }
        acc
    }

    /// The number of edge flips needed to orient the edges.
    pub fn count_edge_twist(&self) -> (r: u8)
        requires
            self.wf(),
        ensures
            r as int == seq_sum(self@.eo),
    {
        let mut acc: u8 = 0;
        for i in 0..12
            invariant
                self.wf(),
                acc as int == seq_sum(self@.eo.take(i as int)),
                acc <= i,
        {
            proof {
                assert(self@.eo[i as int] == self.eo@[i as int] as int);
            }
            acc = acc + self.eo[i];
            proof {
                let t = self@.eo.take(i + 1);
                assert(t.drop_last() =~= self@.eo.take(i as int));
                assert(t.last() == self@.eo[i as int]);
            }
        }
        proof {
            assert(self@.eo.take(12) =~= self@.eo);
        }
        acc
    }

    /// The number of transpositions needed to solve the corner permutation.
    pub fn count_corner_perm(&self) -> (r: u8)
        ensures
            r as int == swap_count(self@.cp, 0),
            r <= 8,
    {
        let mut vals = self.corner_values();
        count_transpositions(&mut vals)
    }

    /// The number of transpositions needed to solve the edge permutation.
    pub fn count_edge_perm(&self) -> (r: u8)
        ensures
            r as int == swap_count(self@.ep, 0),
            r <= 12,
    {
        let mut vals = self.edge_values();
        count_transpositions(&mut vals)
    }

    /// Whether this state describes a physically realizable (hence solvable)
    /// cube: duplicate-free permutations, orientation sums zero, and equal
    /// permutation parities.
    pub fn is_solvable(&self) -> (r: bool)
        requires
            self.wf(),
        ensures
            r == solvable(self@),
    {
        let cpv = self.corner_values();
        let epv = self.edge_values();
        if has_duplicates(cpv.as_slice()) || has_duplicates(epv.as_slice()) {
            return false;
        }
        let c_perm = self.count_corner_perm();
        let e_perm = self.count_edge_perm();
        let c_twist = self.count_corner_twist();
        let e_twist = self.count_edge_twist();
        let has_even_permutation = c_perm % 2 == e_perm % 2;
        let has_valid_twist = c_twist % 3 == 0 && e_twist % 2 == 0;
        proof {
            lemma_twist_sum_mod(self@.co);
            assert(c_twist as int % 3 == 0 <==> seq_sum(self@.co) % 3 == 0);
        }
        has_even_permutation && has_valid_twist
    }
}

/// Composition of duplicate-free states is duplicate-free.
pub proof fn lemma_compose_no_dups(a: CubeView, b: CubeView)
    requires
        a.wf(),
        b.wf(),
        no_dups(a.cp),
        no_dups(b.cp),
        no_dups(a.ep),
        no_dups(b.ep),
    ensures
        no_dups(compose(a, b).cp),
        no_dups(compose(a, b).ep),
{
    let c = compose(a, b);
    assert forall|i: int, j: int| 0 <= i < j < 8 implies c.cp[i] != c.cp[j] by {
        assert(b.cp[i] != b.cp[j]);
        assert(c.cp[i] == a.cp[b.cp[i]]);
        assert(c.cp[j] == a.cp[b.cp[j]]);
    }
    assert forall|i: int, j: int| 0 <= i < j < 12 implies c.ep[i] != c.ep[j] by {
        assert(b.ep[i] != b.ep[j]);
        assert(c.ep[i] == a.ep[b.ep[i]]);
        assert(c.ep[j] == a.ep[b.ep[j]]);
    }
}

} // verus!
