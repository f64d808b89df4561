//! Cube states on the facelet level: the 54 sticker colors in U-R-F-D-L-B
//! face order, the fixed geometry linking sticker positions to cubie slots,
//! and the conversions between facelet and cubie representations.

use vstd::prelude::*;

use crate::cubie::{solvable, CubeView, CubieCube};
use crate::error::Error;

verus! {

broadcast use vstd::array::group_array_axioms;

/// The six sticker colors, named after the face whose center they occupy.
#[derive(Clone, Copy, PartialEq, Eq, Structural, Debug)]
pub enum Color {
    U,
    R,
    F,
    D,
    L,
    B,
}

impl Color {
    /// The fixed integer of this color in face order.
    pub open spec fn idx(self) -> int {
        match self {
            Color::U => 0,
            Color::R => 1,
            Color::F => 2,
            Color::D => 3,
            Color::L => 4,
            Color::B => 5,
        }
    }

    pub fn index(self) -> (r: usize)
        ensures
            r == self.idx(),
            r < 6,
    {
        match self {
            Color::U => 0,
            Color::R => 1,
            Color::F => 2,
            Color::D => 3,
            Color::L => 4,
            Color::B => 5,
        }
    }

    /// The color a face letter names, if any.
    pub open spec fn spec_of_char(value: char) -> Option<Color> {
        if value == 'U' {
            Some(Color::U)
        } else if value == 'R' {
            Some(Color::R)
        } else if value == 'F' {
            Some(Color::F)
        } else if value == 'D' {
            Some(Color::D)
        } else if value == 'L' {
            Some(Color::L)
        } else if value == 'B' {
            Some(Color::B)
        } else {
            None
        }
    }

    /// Fails exactly on characters outside U, R, F, D, L, B.
    pub fn try_from(value: char) -> (r: Result<Color, Error>)
        ensures
            Color::spec_of_char(value) matches Some(c) ==> (r matches Ok(rc) && rc == c),
            Color::spec_of_char(value) is None ==> (r matches Err(e) && e == Error::InvalidColor),
    {
        match value {
            'U' => Ok(Color::U),
            'R' => Ok(Color::R),
            'F' => Ok(Color::F),
            'D' => Ok(Color::D),
            'L' => Ok(Color::L),
            'B' => Ok(Color::B),
            _ => Err(Error::InvalidColor),
        }
    }
}

/// The 54 facelet positions, face by face, row-major; position 5 of each
/// face is its fixed center.
#[derive(Clone, Copy, PartialEq, Eq, Structural, Debug)]
pub enum Facelet {
    U1,
    U2,
    U3,
    U4,
    _U5,
    U6,
    U7,
    U8,
    U9,
    R1,
    R2,
    R3,
    R4,
    _R5,
    R6,
    R7,
    R8,
    R9,
    F1,
    F2,
    F3,
    F4,
    _F5,
    F6,
    F7,
    F8,
    F9,
    D1,
    D2,
    D3,
    D4,
    _D5,
    D6,
    D7,
    D8,
    D9,
    L1,
    L2,
    L3,
    L4,
    _L5,
    L6,
    L7,
    L8,
    L9,
    B1,
    B2,
    B3,
    B4,
    _B5,
    B6,
    B7,
    B8,
    B9
}

impl Facelet {
    /// The fixed integer of this facelet position.
    pub open spec fn idx(self) -> int {
        match self {
            Facelet::U1 => 0,
            Facelet::U2 => 1,
            Facelet::U3 => 2,
            Facelet::U4 => 3,
            Facelet::_U5 => 4,
            Facelet::U6 => 5,
            Facelet::U7 => 6,
            Facelet::U8 => 7,
            Facelet::U9 => 8,
            Facelet::R1 => 9,
            Facelet::R2 => 10,
            Facelet::R3 => 11,
            Facelet::R4 => 12,
            Facelet::_R5 => 13,
            Facelet::R6 => 14,
            Facelet::R7 => 15,
            Facelet::R8 => 16,
            Facelet::R9 => 17,
            Facelet::F1 => 18,
            Facelet::F2 => 19,
            Facelet::F3 => 20,
            Facelet::F4 => 21,
            Facelet::_F5 => 22,
            Facelet::F6 => 23,
            Facelet::F7 => 24,
            Facelet::F8 => 25,
            Facelet::F9 => 26,
            Facelet::D1 => 27,
            Facelet::D2 => 28,
            Facelet::D3 => 29,
            Facelet::D4 => 30,
            Facelet::_D5 => 31,
            Facelet::D6 => 32,
            Facelet::D7 => 33,
            Facelet::D8 => 34,
            Facelet::D9 => 35,
            Facelet::L1 => 36,
            Facelet::L2 => 37,
            Facelet::L3 => 38,
            Facelet::L4 => 39,
            Facelet::_L5 => 40,
            Facelet::L6 => 41,
            Facelet::L7 => 42,
            Facelet::L8 => 43,
            Facelet::L9 => 44,
            Facelet::B1 => 45,
            Facelet::B2 => 46,
            Facelet::B3 => 47,
            Facelet::B4 => 48,
            Facelet::_B5 => 49,
            Facelet::B6 => 50,
            Facelet::B7 => 51,
            Facelet::B8 => 52,
            Facelet::B9 => 53,
        }
    }

    pub fn index(self) -> (r: usize)
        ensures
            r == self.idx(),
            r < 54,
    {
        match self {
            Facelet::U1 => 0,
            Facelet::U2 => 1,
            Facelet::U3 => 2,
            Facelet::U4 => 3,
            Facelet::_U5 => 4,
            Facelet::U6 => 5,
            Facelet::U7 => 6,
            Facelet::U8 => 7,
            Facelet::U9 => 8,
            Facelet::R1 => 9,
            Facelet::R2 => 10,
            Facelet::R3 => 11,
            Facelet::R4 => 12,
            Facelet::_R5 => 13,
            Facelet::R6 => 14,
            Facelet::R7 => 15,
            Facelet::R8 => 16,
            Facelet::R9 => 17,
            Facelet::F1 => 18,
            Facelet::F2 => 19,
            Facelet::F3 => 20,
            Facelet::F4 => 21,
            Facelet::_F5 => 22,
            Facelet::F6 => 23,
            Facelet::F7 => 24,
            Facelet::F8 => 25,
            Facelet::F9 => 26,
            Facelet::D1 => 27,
            Facelet::D2 => 28,
            Facelet::D3 => 29,
            Facelet::D4 => 30,
            Facelet::_D5 => 31,
            Facelet::D6 => 32,
            Facelet::D7 => 33,
            Facelet::D8 => 34,
            Facelet::D9 => 35,
            Facelet::L1 => 36,
            Facelet::L2 => 37,
            Facelet::L3 => 38,
            Facelet::L4 => 39,
            Facelet::_L5 => 40,
            Facelet::L6 => 41,
            Facelet::L7 => 42,
            Facelet::L8 => 43,
            Facelet::L9 => 44,
            Facelet::B1 => 45,
            Facelet::B2 => 46,
            Facelet::B3 => 47,
            Facelet::B4 => 48,
            Facelet::_B5 => 49,
            Facelet::B6 => 50,
            Facelet::B7 => 51,
            Facelet::B8 => 52,
            Facelet::B9 => 53,
        }
    }
}

/// The colors of a facelet sequence as plain integers.
pub open spec fn color_ints(s: Seq<Color>) -> Seq<int> {
    Seq::new(s.len(), |i: int| s[i].idx())
}

/// The solved facelet colors: each face painted in its own color.
pub open spec fn solved_colors() -> Seq<int> {
    Seq::new(54, |p: int| p / 9)
}

/// The three facelet positions of each corner slot, U/D sticker first.
pub open spec fn corner_facelet_spec(i: int, k: int) -> int {
    if i == 0 && k == 0 {
        0
    } else if i == 0 && k == 1 {
        36
    } else if i == 0 && k == 2 {
        47
    } else if i == 1 && k == 0 {
        2
    } else if i == 1 && k == 1 {
        45
    } else if i == 1 && k == 2 {
        11
    } else if i == 2 && k == 0 {
        8
    } else if i == 2 && k == 1 {
        9
    } else if i == 2 && k == 2 {
        20
    } else if i == 3 && k == 0 {
        6
    } else if i == 3 && k == 1 {
        18
    } else if i == 3 && k == 2 {
        38
    } else if i == 4 && k == 0 {
        27
    } else if i == 4 && k == 1 {
        44
    } else if i == 4 && k == 2 {
        24
    } else if i == 5 && k == 0 {
        29
    } else if i == 5 && k == 1 {
        26
    } else if i == 5 && k == 2 {
        15
    } else if i == 6 && k == 0 {
        35
    } else if i == 6 && k == 1 {
        17
    } else if i == 6 && k == 2 {
        51
    } else if i == 7 && k == 0 {
        33
    } else if i == 7 && k == 1 {
        53
    } else {
        42
    }

}

pub fn corner_facelet(i: usize, k: usize) -> (r: usize)
    requires
        i < 8,
        k < 3,
    ensures
        r == corner_facelet_spec(i as int, k as int),
        r < 54,
{
    match (i, k) {
        (0, 0) => 0,
        (0, 1) => 36,
        (0, 2) => 47,
        (1, 0) => 2,
        (1, 1) => 45,
        (1, 2) => 11,
        (2, 0) => 8,
        (2, 1) => 9,
        (2, 2) => 20,
        (3, 0) => 6,
        (3, 1) => 18,
        (3, 2) => 38,
        (4, 0) => 27,
        (4, 1) => 44,
        (4, 2) => 24,
        (5, 0) => 29,
        (5, 1) => 26,
        (5, 2) => 15,
        (6, 0) => 35,
        (6, 1) => 17,
        (6, 2) => 51,
        (7, 0) => 33,
        (7, 1) => 53,
        _ => 42,
    }
}

/// The two facelet positions of each edge slot.
pub open spec fn edge_facelet_spec(i: int, k: int) -> int {
    if i == 0 && k == 0 {
        50
    } else if i == 0 && k == 1 {
        39
    } else if i == 1 && k == 0 {
        48
    } else if i == 1 && k == 1 {
        14
    } else if i == 2 && k == 0 {
        23
    } else if i == 2 && k == 1 {
        12
    } else if i == 3 && k == 0 {
        21
    } else if i == 3 && k == 1 {
        41
    } else if i == 4 && k == 0 {
        1
    } else if i == 4 && k == 1 {
        46
    } else if i == 5 && k == 0 {
        5
    } else if i == 5 && k == 1 {
        10
    } else if i == 6 && k == 0 {
        7
    } else if i == 6 && k == 1 {
        19
    } else if i == 7 && k == 0 {
        3
    } else if i == 7 && k == 1 {
        37
    } else if i == 8 && k == 0 {
        28
    } else if i == 8 && k == 1 {
        25
    } else if i == 9 && k == 0 {
        32
    } else if i == 9 && k == 1 {
        16
    } else if i == 10 && k == 0 {
        34
    } else if i == 10 && k == 1 {
        52
    } else if i == 11 && k == 0 {
        30
    } else {
        43
    }

}

pub fn edge_facelet(i: usize, k: usize) -> (r: usize)
    requires
        i < 12,
        k < 2,
    ensures
        r == edge_facelet_spec(i as int, k as int),
        r < 54,
{
    match (i, k) {
        (0, 0) => 50,
        (0, 1) => 39,
        (1, 0) => 48,
        (1, 1) => 14,
        (2, 0) => 23,
        (2, 1) => 12,
        (3, 0) => 21,
        (3, 1) => 41,
        (4, 0) => 1,
        (4, 1) => 46,
        (5, 0) => 5,
        (5, 1) => 10,
        (6, 0) => 7,
        (6, 1) => 19,
        (7, 0) => 3,
        (7, 1) => 37,
        (8, 0) => 28,
        (8, 1) => 25,
        (9, 0) => 32,
        (9, 1) => 16,
        (10, 0) => 34,
        (10, 1) => 52,
        (11, 0) => 30,
        _ => 43,
    }
}

/// The solved colors of each corner's three stickers.
pub open spec fn corner_color_spec(i: int, k: int) -> int {
    if i == 0 && k == 0 {
        0
    } else if i == 0 && k == 1 {
        4
    } else if i == 0 && k == 2 {
        5
    } else if i == 1 && k == 0 {
        0
    } else if i == 1 && k == 1 {
        5
    } else if i == 1 && k == 2 {
        1
    } else if i == 2 && k == 0 {
        0
    } else if i == 2 && k == 1 {
        1
    } else if i == 2 && k == 2 {
        2
    } else if i == 3 && k == 0 {
        0
    } else if i == 3 && k == 1 {
        2
    } else if i == 3 && k == 2 {
        4
    } else if i == 4 && k == 0 {
        3
    } else if i == 4 && k == 1 {
        4
    } else if i == 4 && k == 2 {
        2
    } else if i == 5 && k == 0 {
        3
    } else if i == 5 && k == 1 {
        2
    } else if i == 5 && k == 2 {
        1
    } else if i == 6 && k == 0 {
        3
    } else if i == 6 && k == 1 {
        1
    } else if i == 6 && k == 2 {
        5
    } else if i == 7 && k == 0 {
        3
    } else if i == 7 && k == 1 {
        5
    } else {
        4
    }

}

pub fn corner_color(i: usize, k: usize) -> (r: Color)
    requires
        i < 8,
        k < 3,
    ensures
        r.idx() == corner_color_spec(i as int, k as int),
{
    match (i, k) {
        (0, 0) => Color::U,
        (0, 1) => Color::L,
        (0, 2) => Color::B,
        (1, 0) => Color::U,
        (1, 1) => Color::B,
        (1, 2) => Color::R,
        (2, 0) => Color::U,
        (2, 1) => Color::R,
        (2, 2) => Color::F,
        (3, 0) => Color::U,
        (3, 1) => Color::F,
        (3, 2) => Color::L,
        (4, 0) => Color::D,
        (4, 1) => Color::L,
        (4, 2) => Color::F,
        (5, 0) => Color::D,
        (5, 1) => Color::F,
        (5, 2) => Color::R,
        (6, 0) => Color::D,
        (6, 1) => Color::R,
        (6, 2) => Color::B,
        (7, 0) => Color::D,
        (7, 1) => Color::B,
        _ => Color::L,
    }
}

/// The solved colors of each edge's two stickers.
pub open spec fn edge_color_spec(i: int, k: int) -> int {
    if i == 0 && k == 0 {
        5
    } else if i == 0 && k == 1 {
        4
    } else if i == 1 && k == 0 {
        5
    } else if i == 1 && k == 1 {
        1
    } else if i == 2 && k == 0 {
        2
    } else if i == 2 && k == 1 {
        1
    } else if i == 3 && k == 0 {
        2
    } else if i == 3 && k == 1 {
        4
    } else if i == 4 && k == 0 {
        0
    } else if i == 4 && k == 1 {
        5
    } else if i == 5 && k == 0 {
        0
    } else if i == 5 && k == 1 {
        1
    } else if i == 6 && k == 0 {
        0
    } else if i == 6 && k == 1 {
        2
    } else if i == 7 && k == 0 {
        0
    } else if i == 7 && k == 1 {
        4
    } else if i == 8 && k == 0 {
        3
    } else if i == 8 && k == 1 {
        2
    } else if i == 9 && k == 0 {
        3
    } else if i == 9 && k == 1 {
        1
    } else if i == 10 && k == 0 {
        3
    } else if i == 10 && k == 1 {
        5
    } else if i == 11 && k == 0 {
        3
    } else {
        4
    }

}

pub fn edge_color(i: usize, k: usize) -> (r: Color)
    requires
        i < 12,
        k < 2,
    ensures
        r.idx() == edge_color_spec(i as int, k as int),
{
    match (i, k) {
        (0, 0) => Color::B,
        (0, 1) => Color::L,
        (1, 0) => Color::B,
        (1, 1) => Color::R,
        (2, 0) => Color::F,
        (2, 1) => Color::R,
        (3, 0) => Color::F,
        (3, 1) => Color::L,
        (4, 0) => Color::U,
        (4, 1) => Color::B,
        (5, 0) => Color::U,
        (5, 1) => Color::R,
        (6, 0) => Color::U,
        (6, 1) => Color::F,
        (7, 0) => Color::U,
        (7, 1) => Color::L,
        (8, 0) => Color::D,
        (8, 1) => Color::F,
        (9, 0) => Color::D,
        (9, 1) => Color::R,
        (10, 0) => Color::D,
        (10, 1) => Color::B,
        (11, 0) => Color::D,
        _ => Color::L,
    }
}

/// Cube on the facelet level, in U-R-F-D-L-B face order.
#[derive(Clone, Copy, PartialEq, Debug)]
pub struct FaceCube {
    pub f: [Color; 54],
}

impl FaceCube {
    /// The solved facelet cube.
    pub fn solved() -> (r: FaceCube)
        ensures
            color_ints(r.f@) == solved_colors(),
    {
        let mut f: [Color; 54] = [Color::U; 54];
        let mut i: usize = 9;
        while i < 54
            invariant
                9 <= i <= 54,
                forall|k: int| 0 <= k < 9 ==> (#[trigger] f@[k]) == Color::U,
                forall|k: int| 9 <= k < i ==> (#[trigger] f@[k]).idx() == k / 9,
            decreases 54 - i,
        {
            let c = if i < 18 {
                Color::R
            } else if i < 27 {
                Color::F
            } else if i < 36 {
                Color::D
            } else if i < 45 {
                Color::L
            } else {
                Color::B
            };
            f[i] = c;
            i = i + 1;
        }
        let r = FaceCube { f };
        proof {
            assert(color_ints(r.f@) =~= solved_colors());
        }
        r
    }
}

impl FaceCube {
    /// Every character of the string names a color.
    pub open spec fn spec_all_valid(s: Seq<char>) -> bool {
        forall|i: int| 0 <= i < s.len() ==> Color::spec_of_char(#[trigger] s[i]) is Some
    }

    /// Parse a facelet string: exactly 54 characters, each a face letter.
    pub fn try_from_str(cube_string: &str) -> (r: Result<FaceCube, Error>)
        ensures
            cube_string@.len() != 54 ==> (r matches Err(e) && e == Error::InvalidFaceletString),
            cube_string@.len() == 54 && FaceCube::spec_all_valid(cube_string@) ==> (r matches Ok(
                fc,
            ) && (forall|i: int|
                0 <= i < 54 ==> Some(#[trigger] fc.f@[i]) == Color::spec_of_char(
                    cube_string@[i],
                ))),
            cube_string@.len() == 54 && !FaceCube::spec_all_valid(cube_string@) ==> (r matches Err(
                e,
            ) && e == Error::InvalidColor),
    {
        let n = cube_string.unicode_len();
        if n != 54 {
            return Err(Error::InvalidFaceletString);
        }
        let mut f: [Color; 54] = [Color::U; 54];
        for i in 0..54usize
            invariant
                cube_string@.len() == 54,
                forall|k: int|
                    0 <= k < i ==> Some(#[trigger] f@[k]) == Color::spec_of_char(cube_string@[k]),
        {
            let c = cube_string.get_char(i);
            match Color::try_from(c) {
                Ok(col) => {
                    f[i] = col;
                },
                Err(e) => {
                    proof {
                        assert(Color::spec_of_char(cube_string@[i as int]) is None);
                    }
                    return Err(e);
                },
            }
        }
        proof {
            assert forall|k: int|
                0 <= k < 54 implies Color::spec_of_char(#[trigger] cube_string@[k]) is Some by {
                assert(Some(f@[k]) == Color::spec_of_char(cube_string@[k]));
            }
        }
        Ok(FaceCube { f })
    }
}

/// Paint one corner slot: its three stickers receive the colors of the
/// cubie that occupies it, rotated by its twist.
pub open spec fn paint_corner(f: Seq<int>, v: CubeView, i: int) -> Seq<int> {
    f.update(corner_facelet_spec(i, 0), corner_color_spec(v.cp[i], (0 + 3 - v.co[i]) % 3)).update(
        corner_facelet_spec(i, 1),
        corner_color_spec(v.cp[i], (1 + 3 - v.co[i]) % 3),
    ).update(corner_facelet_spec(i, 2), corner_color_spec(v.cp[i], (2 + 3 - v.co[i]) % 3))
}

/// Paint the first `i` corner slots in order.
pub open spec fn paint_corners(f: Seq<int>, v: CubeView, i: int) -> Seq<int>
    decreases i,
{
    if i <= 0 {
        f
    } else {
        paint_corner(paint_corners(f, v, i - 1), v, i - 1)
    }
}

/// Paint one edge slot: its two stickers receive the colors of the cubie
/// that occupies it, swapped by its flip.
pub open spec fn paint_edge(f: Seq<int>, v: CubeView, i: int) -> Seq<int> {
    f.update(edge_facelet_spec(i, 0), edge_color_spec(v.ep[i], (0 + v.eo[i]) % 2)).update(
        edge_facelet_spec(i, 1),
        edge_color_spec(v.ep[i], (1 + v.eo[i]) % 2),
    )
}

/// Paint the first `i` edge slots in order.
pub open spec fn paint_edges(f: Seq<int>, v: CubeView, i: int) -> Seq<int>
    decreases i,
{
    if i <= 0 {
        f
    } else {
        paint_edge(paint_edges(f, v, i - 1), v, i - 1)
    }
}

/// The facelet colors of a cubie state: every corner and edge slot painted
/// over the solved base.
pub open spec fn painted(v: CubeView) -> Seq<int> {
    paint_edges(paint_corners(solved_colors(), v, 8), v, 12)
}

impl FaceCube {
    /// The facelet representation of a cubie state. Fails exactly on
    /// unsolvable states.
    pub fn from_cubie(value: &CubieCube) -> (r: Result<FaceCube, Error>)
        requires
            value.wf(),
        ensures
            solvable(value@) ==> (r matches Ok(fc) && color_ints(fc.f@) == painted(value@)),
            !solvable(value@) ==> (r matches Err(e) && e == Error::InvalidCubieValue),
    {
        if !value.is_solvable() {
            return Err(Error::InvalidCubieValue);
        }
        let mut face = FaceCube::solved();
        for i in 0..8usize
            invariant
                value.wf(),
                color_ints(face.f@) == paint_corners(solved_colors(), value@, i as int),
        {
            let corner = value.cp[i].index();
            proof {
                assert(value@.co[i as int] == value.co@[i as int] as int);
                assert(value@.co[i as int] < 3);
                assert(value@.cp[i as int] == value.cp@[i as int].idx());
            }
            let ori = value.co[i] as usize;
            let ghost before = color_ints(face.f@);
            let idx0 = corner_facelet(i, 0);
            let c0 = corner_color(corner, (0 + 3 - ori) % 3);
            face.f[idx0] = c0;
            let idx1 = corner_facelet(i, 1);
            let c1 = corner_color(corner, (1 + 3 - ori) % 3);
            face.f[idx1] = c1;
            let idx2 = corner_facelet(i, 2);
            let c2 = corner_color(corner, (2 + 3 - ori) % 3);
            face.f[idx2] = c2;
            proof {
                assert(color_ints(face.f@) =~= paint_corner(before, value@, i as int));
            }
        }
        let ghost after_corners = color_ints(face.f@);
        for i in 0..12usize
            invariant
                value.wf(),
                after_corners == paint_corners(solved_colors(), value@, 8),
                color_ints(face.f@) == paint_edges(after_corners, value@, i as int),
        {
            let edge = value.ep[i].index();
            proof {
                assert(value@.eo[i as int] == value.eo@[i as int] as int);
                assert(value@.eo[i as int] < 2);
                assert(value@.ep[i as int] == value.ep@[i as int].idx());
            }
            let flip = value.eo[i] as usize;
            let ghost before = color_ints(face.f@);
            let idx0 = edge_facelet(i, 0);
            let c0 = edge_color(edge, (0 + flip) % 2);
            face.f[idx0] = c0;
            let idx1 = edge_facelet(i, 1);
            let c1 = edge_color(edge, (1 + flip) % 2);
            face.f[idx1] = c1;
            proof {
                assert(color_ints(face.f@) =~= paint_edge(before, value@, i as int));
            }
        }
        Ok(face)
    }
}

/// Whether a color belongs to the U or D face.
pub open spec fn spec_is_ud(c: int) -> bool {
    c == 0 || c == 3
}

fn is_ud_color(c: Color) -> (r: bool)
    ensures
        r == spec_is_ud(c.idx()),
{
    matches!(c, Color::U | Color::D)
}

/// The twist a corner slot shows: the index of its U/D sticker, or 2 when
/// none of the three stickers shows a U/D color.
pub open spec fn corner_ori_at(f: Seq<int>, i: int) -> int {
    if spec_is_ud(f[corner_facelet_spec(i, 0)]) {
        0
    } else if spec_is_ud(f[corner_facelet_spec(i, 1)]) {
        1
    } else {
        2
    }
}

/// The first corner cubie whose second and third solved colors match the
/// observed pair, or 8 when none does.
pub open spec fn find_corner_cubie(col1: int, col2: int, j: int) -> int
    decreases 8 - j,
{
    if j < 0 || j >= 8 {
        8
    } else if corner_color_spec(j, 1) == col1 && corner_color_spec(j, 2) == col2 {
        j
    } else {
        find_corner_cubie(col1, col2, j + 1)
    }
}

/// The corner cubie and twist a slot of the facelet cube shows; an
/// unrecognized color pair leaves the slot in its solved state.
pub open spec fn decoded_corner(f: Seq<int>, i: int) -> (int, int) {
    let ori = corner_ori_at(f, i);
    let col1 = f[corner_facelet_spec(i, (ori + 1) % 3)];
    let col2 = f[corner_facelet_spec(i, (ori + 2) % 3)];
    let j = find_corner_cubie(col1, col2, 0);
    if j < 8 {
        (j, ori % 3)
    } else {
        (i, 0int)
    }
}

/// The first edge cubie whose solved color pair matches the observed pair,
/// straight (flip 0) or reversed (flip 1), or 12 when none does.
pub open spec fn find_edge_cubie(c0: int, c1: int, j: int) -> (int, int)
    decreases 12 - j,
{
    if j < 0 || j >= 12 {
        (12int, 0int)
    } else if edge_color_spec(j, 0) == c0 && edge_color_spec(j, 1) == c1 {
        (j, 0int)
    } else if edge_color_spec(j, 1) == c0 && edge_color_spec(j, 0) == c1 {
        (j, 1int)
    } else {
        find_edge_cubie(c0, c1, j + 1)
    }
}

proof fn lemma_find_edge_flip(c0: int, c1: int, j: int)
    ensures
        find_edge_cubie(c0, c1, j).1 == 0 || find_edge_cubie(c0, c1, j).1 == 1,
    decreases 12 - j,
{
    if 0 <= j < 12 {
        if !(edge_color_spec(j, 0) == c0 && edge_color_spec(j, 1) == c1) && !(edge_color_spec(j, 1)
            == c0 && edge_color_spec(j, 0) == c1) {
            lemma_find_edge_flip(c0, c1, j + 1);
        }
    }
}

/// The edge cubie and flip a slot of the facelet cube shows.
pub open spec fn decoded_edge(f: Seq<int>, i: int) -> (int, int) {
    let c0 = f[edge_facelet_spec(i, 0)];
    let c1 = f[edge_facelet_spec(i, 1)];
    let r = find_edge_cubie(c0, c1, 0);
    if r.0 < 12 {
        r
    } else {
        (i, 0int)
    }
}

/// The cubie state a facelet cube shows.
pub open spec fn decoded_state(f: Seq<int>) -> CubeView {
    CubeView {
        cp: Seq::new(8, |i: int| decoded_corner(f, i).0),
        co: Seq::new(8, |i: int| decoded_corner(f, i).1),
        ep: Seq::new(12, |i: int| decoded_edge(f, i).0),
        eo: Seq::new(12, |i: int| decoded_edge(f, i).1),
    }
}

fn find_corner_match(col1: Color, col2: Color) -> (r: usize)
    ensures
        r as int == find_corner_cubie(col1.idx(), col2.idx(), 0),
        r <= 8,
{
    let mut j: usize = 0;
    while j < 8
        invariant
            j <= 8,
            find_corner_cubie(col1.idx(), col2.idx(), 0) == find_corner_cubie(
                col1.idx(),
                col2.idx(),
                j as int,
            ),
        decreases 8 - j,
    {
        let a = corner_color(j, 1);
        let b = corner_color(j, 2);
        if a.index() == col1.index() && b.index() == col2.index() {
            proof {
                assert(corner_color_spec(j as int, 1) == col1.idx());
                assert(corner_color_spec(j as int, 2) == col2.idx());
            }
            return j;
        }
        j = j + 1;
    }
    8
}

fn find_edge_match(c0: Color, c1: Color) -> (r: (usize, u8))
    ensures
        (r.0 as int, r.1 as int) == find_edge_cubie(c0.idx(), c1.idx(), 0),
        r.0 <= 12,
        r.1 < 2,
{
    let mut j: usize = 0;
    while j < 12
        invariant
            j <= 12,
            find_edge_cubie(c0.idx(), c1.idx(), 0) == find_edge_cubie(
                c0.idx(),
                c1.idx(),
                j as int,
            ),
        decreases 12 - j,
    {
        let a = edge_color(j, 0);
        let b = edge_color(j, 1);
        if a.index() == c0.index() && b.index() == c1.index() {
            return (j, 0);
        }
        if b.index() == c0.index() && a.index() == c1.index() {
            return (j, 1);
        }
        j = j + 1;
    }
    (12, 0)
}

impl CubieCube {
    /// The cubie state a facelet cube shows. Fails exactly when the colors
    /// arrange into a state that is not solvable.
    pub fn try_from_facelet(face_cube: &FaceCube) -> (r: Result<CubieCube, Error>)
        ensures
            solvable(decoded_state(color_ints(face_cube.f@))) ==> (r matches Ok(c) && c@
                == decoded_state(color_ints(face_cube.f@))),
            !solvable(decoded_state(color_ints(face_cube.f@))) ==> (r matches Err(e) && e
                == Error::InvalidFaceletValue),
    {
        let ghost fv = color_ints(face_cube.f@);
        let mut state = CubieCube::solved();
        for i in 0..8usize
            invariant
                fv == color_ints(face_cube.f@),
                forall|k: int| 0 <= k < i ==> (#[trigger] state@.cp[k]) == decoded_corner(fv, k).0,
                forall|k: int| 0 <= k < i ==> (#[trigger] state@.co[k]) == decoded_corner(fv, k).1,
                forall|k: int| i <= k < 8 ==> (#[trigger] state@.cp[k]) == k,
                forall|k: int| i <= k < 8 ==> (#[trigger] state@.co[k]) == 0,
                state@.ep == crate::cubie::solved_view().ep,
                state@.eo == crate::cubie::solved_view().eo,
        {
            let s0 = face_cube.f[corner_facelet(i, 0)];
            let s1 = face_cube.f[corner_facelet(i, 1)];
            let ori: usize = if is_ud_color(s0) {
                0
            } else if is_ud_color(s1) {
                1
            } else {
                2
            };
            proof {
                assert(fv[corner_facelet_spec(i as int, 0)] == s0.idx());
                assert(fv[corner_facelet_spec(i as int, 1)] == s1.idx());
                assert(ori as int == corner_ori_at(fv, i as int));
            }
            let col1 = face_cube.f[corner_facelet(i, (ori + 1) % 3)];
            let col2 = face_cube.f[corner_facelet(i, (ori + 2) % 3)];
            proof {
                assert(col1.idx() == fv[corner_facelet_spec(i as int, (ori + 1) % 3)]);
                assert(col2.idx() == fv[corner_facelet_spec(i as int, (ori + 2) % 3)]);
            }
            let j = find_corner_match(col1, col2);
            let ghost prev = state;
            if j < 8 {
                state.cp[i] = crate::cubie::Corner::from_index(j as u8);
                state.co[i] = (ori % 3) as u8;
            }
            proof {
                assert forall|k: int|
                    0 <= k < i + 1 implies (#[trigger] state@.cp[k]) == decoded_corner(fv, k).0 by {
                    assert(state@.cp[k] == state.cp@[k].idx());
                    if k < i {
                        assert(prev@.cp[k] == decoded_corner(fv, k).0);
                        assert(state.cp@[k] == prev.cp@[k]);
                    } else {
                        if j >= 8 {
                            assert(state.cp@[k] == prev.cp@[k]);
                            assert(prev@.cp[k] == k);
                        }
                    }
                }
                assert forall|k: int|
                    0 <= k < i + 1 implies (#[trigger] state@.co[k]) == decoded_corner(fv, k).1 by {
                    assert(state@.co[k] == state.co@[k] as int);
                    if k < i {
                        assert(prev@.co[k] == decoded_corner(fv, k).1);
                        assert(state.co@[k] == prev.co@[k]);
                    } else {
                        if j >= 8 {
                            assert(state.co@[k] == prev.co@[k]);
                            assert(prev@.co[k] == 0);
                        }
                    }
                }
                assert forall|k: int| i + 1 <= k < 8 implies (#[trigger] state@.cp[k]) == k by {
                    assert(state.cp@[k] == prev.cp@[k]);
                    assert(prev@.cp[k] == k);
                }
                assert forall|k: int| i + 1 <= k < 8 implies (#[trigger] state@.co[k]) == 0 by {
                    assert(state.co@[k] == prev.co@[k]);
                    assert(prev@.co[k] == 0);
                }
                assert(state@.ep =~= prev@.ep);
                assert(state@.eo =~= prev@.eo);
            }
        }
        for i in 0..12usize
            invariant
                fv == color_ints(face_cube.f@),
                forall|k: int| 0 <= k < 8 ==> (#[trigger] state@.cp[k]) == decoded_corner(fv, k).0,
                forall|k: int| 0 <= k < 8 ==> (#[trigger] state@.co[k]) == decoded_corner(fv, k).1,
                forall|k: int| 0 <= k < i ==> (#[trigger] state@.ep[k]) == decoded_edge(fv, k).0,
                forall|k: int| 0 <= k < i ==> (#[trigger] state@.eo[k]) == decoded_edge(fv, k).1,
                forall|k: int| i <= k < 12 ==> (#[trigger] state@.ep[k]) == k,
                forall|k: int| i <= k < 12 ==> (#[trigger] state@.eo[k]) == 0,
        {
            let c0 = face_cube.f[edge_facelet(i, 0)];
            let c1 = face_cube.f[edge_facelet(i, 1)];
            proof {
                assert(c0.idx() == fv[edge_facelet_spec(i as int, 0)]);
                assert(c1.idx() == fv[edge_facelet_spec(i as int, 1)]);
            }
            let je = find_edge_match(c0, c1);
            let ghost prev = state;
            if je.0 < 12 {
                state.ep[i] = crate::cubie::Edge::from_index(je.0 as u8);
                state.eo[i] = je.1;
            }
            proof {
                assert forall|k: int|
                    0 <= k < i + 1 implies (#[trigger] state@.ep[k]) == decoded_edge(fv, k).0 by {
                    assert(state@.ep[k] == state.ep@[k].idx());
                    if k < i {
                        assert(prev@.ep[k] == decoded_edge(fv, k).0);
                        assert(state.ep@[k] == prev.ep@[k]);
                    } else {
                        if je.0 >= 12 {
                            assert(state.ep@[k] == prev.ep@[k]);
                            assert(prev@.ep[k] == k);
                        }
                    }
                }
                assert forall|k: int|
                    0 <= k < i + 1 implies (#[trigger] state@.eo[k]) == decoded_edge(fv, k).1 by {
                    assert(state@.eo[k] == state.eo@[k] as int);
                    if k < i {
                        assert(prev@.eo[k] == decoded_edge(fv, k).1);
                        assert(state.eo@[k] == prev.eo@[k]);
                    } else {
                        if je.0 >= 12 {
                            assert(state.eo@[k] == prev.eo@[k]);
                            assert(prev@.eo[k] == 0);
                        }
                    }
                }
                assert forall|k: int| i + 1 <= k < 12 implies (#[trigger] state@.ep[k]) == k by {
                    assert(state.ep@[k] == prev.ep@[k]);
                    assert(prev@.ep[k] == k);
                }
                assert forall|k: int| i + 1 <= k < 12 implies (#[trigger] state@.eo[k]) == 0 by {
                    assert(state.eo@[k] == prev.eo@[k]);
                    assert(prev@.eo[k] == 0);
                }
                assert forall|k: int|
                    0 <= k < 8 implies (#[trigger] state@.cp[k]) == decoded_corner(fv, k).0 by {
                    assert(state.cp@[k] == prev.cp@[k]);
                    assert(prev@.cp[k] == decoded_corner(fv, k).0);
                }
                assert forall|k: int|
                    0 <= k < 8 implies (#[trigger] state@.co[k]) == decoded_corner(fv, k).1 by {
                    assert(state.co@[k] == prev.co@[k]);
                    assert(prev@.co[k] == decoded_corner(fv, k).1);
                }
            }
        }
        proof {
            assert(state@.cp =~= decoded_state(fv).cp);
            assert(state@.co =~= decoded_state(fv).co);
            assert(state@.ep =~= decoded_state(fv).ep);
            assert(state@.eo =~= decoded_state(fv).eo);
            assert(state@ =~= decoded_state(fv));
            assert(state.wf()) by {
                assert forall|k: int| 0 <= k < 8 implies 0 <= #[trigger] state@.co[k] < 3 by {
                    assert(state@.co[k] == state.co@[k] as int);
                }
                assert forall|k: int| 0 <= k < 12 implies 0 <= #[trigger] state@.eo[k] < 2 by {
                    assert(state@.eo[k] == decoded_edge(fv, k).1);
                    lemma_find_edge_flip(fv[edge_facelet_spec(k, 0)], fv[edge_facelet_spec(k, 1)], 0);
                }
            }
        }
        if !state.is_solvable() {
            Err(Error::InvalidFaceletValue)
        } else {
            Ok(state)
        }
    }
}

} // verus!
