use vstd::prelude::*;
use crate::model::{Point, points_of, points4};
use crate::utils::str_eq;

verus! {

/// A rendering tag for a piece.  The engine itself never reads it; a
/// renderer maps it to whatever colour scheme it likes.
#[derive(Debug, Eq, PartialEq, Copy, Clone, Structural)]
pub enum Style {
    Empty,
    Black,
    Red,
    Green,
    Yellow,
    Blue,
    Magenta,
    Cyan,
    White,
}

/// A compiled piece: cell offsets from the rotation center in a doubled
/// coordinate system, plus a parity flag per axis recording whether the
/// true center sits on a half-integer row or column.
#[derive(Debug, Eq, PartialEq, Clone)]
pub struct Tetrimino {
    pub diffs: Vec<Point>,
    pub parity: Point,
    pub style: Style,
}

impl Tetrimino {
    /// The shape data a rotation can act on: parity flags are 0 or 1,
    /// every diff agrees with the parity modulo 2 (so the projection
    /// back to cell offsets divides evenly), and the diffs are small
    /// enough that the rotation arithmetic cannot overflow.
    pub open spec fn consistent(&self) -> bool {
        &&& (self.parity@.0 == 0 || self.parity@.0 == 1)
        &&& (self.parity@.1 == 0 || self.parity@.1 == 1)
        &&& forall|k: int|
            0 <= k < self.diffs@.len() ==> {
                let d = (#[trigger] self.diffs@[k])@;
                &&& -10000 <= d.0 <= 10000
                &&& -10000 <= d.1 <= 10000
                &&& (d.0 + self.parity@.0) % 2 == 0
                &&& (d.1 + self.parity@.1) % 2 == 0
            }
    }

    /// A full piece definition: consistent, with exactly four cells.
    pub open spec fn wf(&self) -> bool {
        &&& self.consistent()
        &&& self.diffs@.len() == 4
    }
}

/// Doubled cell offsets of the piece with the given index, in the fixed
/// catalog order I, O, T, S, Z, J, L.
pub open spec fn tetrimino_diffs(idx: int) -> Seq<(int, int)> {
    if idx == 0 {
        seq![(-1int, -3int), (-1int, -1int), (-1int, 1int), (-1int, 3int)]
    } else if idx == 1 {
        seq![(-1int, -1int), (-1int, 1int), (1int, -1int), (1int, 1int)]
    } else if idx == 2 {
        seq![(-2int, 0int), (0int, -2int), (0int, 0int), (0int, 2int)]
    } else if idx == 3 {
        seq![(-2int, 0int), (-2int, 2int), (0int, -2int), (0int, 0int)]
    } else if idx == 4 {
        seq![(-2int, -2int), (-2int, 0int), (0int, 0int), (0int, 2int)]
    } else if idx == 5 {
        seq![(-2int, -2int), (0int, -2int), (0int, 0int), (0int, 2int)]
    } else {
        seq![(-2int, 2int), (0int, -2int), (0int, 0int), (0int, 2int)]
    }
}

pub open spec fn tetrimino_parity(idx: int) -> (int, int) {
    if idx == 0 || idx == 1 {
        (1int, 1int)
    } else {
        (0int, 0int)
    }
}

pub open spec fn tetrimino_style(idx: int) -> Style {
    if idx == 0 {
        Style::Cyan
    } else if idx == 1 {
        Style::Yellow
    } else if idx == 2 {
        Style::Magenta
    } else if idx == 3 {
        Style::Green
    } else if idx == 4 {
        Style::Red
    } else if idx == 5 {
        Style::Blue
    } else {
        Style::White
    }
}

/// The compiled piece with the given catalog index (I, O, T, S, Z, J, L).
pub fn tetrimino(idx: usize) -> (t: Tetrimino)
    requires
        idx < 7,
    ensures
        t.wf(),
        points_of(t.diffs@) == tetrimino_diffs(idx as int),
        t.parity@ == tetrimino_parity(idx as int),
        t.style == tetrimino_style(idx as int),
{
    if idx == 0 {
        Tetrimino { diffs: points4(-1, -3, -1, -1, -1, 1, -1, 3), parity: Point(1, 1), style: Style::Cyan }
    } else if idx == 1 {
        Tetrimino { diffs: points4(-1, -1, -1, 1, 1, -1, 1, 1), parity: Point(1, 1), style: Style::Yellow }
    } else if idx == 2 {
        Tetrimino { diffs: points4(-2, 0, 0, -2, 0, 0, 0, 2), parity: Point(0, 0), style: Style::Magenta }
    } else if idx == 3 {
        Tetrimino { diffs: points4(-2, 0, -2, 2, 0, -2, 0, 0), parity: Point(0, 0), style: Style::Green }
    } else if idx == 4 {
        Tetrimino { diffs: points4(-2, -2, -2, 0, 0, 0, 0, 2), parity: Point(0, 0), style: Style::Red }
    } else if idx == 5 {
        Tetrimino { diffs: points4(-2, -2, 0, -2, 0, 0, 0, 2), parity: Point(0, 0), style: Style::Blue }
    } else {
        Tetrimino { diffs: points4(-2, 2, 0, -2, 0, 0, 0, 2), parity: Point(0, 0), style: Style::White }
    }
}

/// The whole catalog in its fixed order, built once at startup by callers
/// that want the full table rather than a single piece.
pub fn tetriminoes() -> (ts: Vec<Tetrimino>)
    ensures
        ts@.len() == 7,
        forall|i: int|
            0 <= i < 7 ==> {
                &&& (#[trigger] ts@[i]).wf()
                &&& points_of(ts@[i].diffs@) == tetrimino_diffs(i)
                &&& ts@[i].parity@ == tetrimino_parity(i)
                &&& ts@[i].style == tetrimino_style(i)
            },
{
    let mut ts: Vec<Tetrimino> = Vec::new();
    let mut i: usize = 0;
    while i < 7
        invariant
            i <= 7,
            ts@.len() == i,
            forall|k: int|
                0 <= k < i ==> {
                    &&& (#[trigger] ts@[k]).wf()
                    &&& points_of(ts@[k].diffs@) == tetrimino_diffs(k)
                    &&& ts@[k].parity@ == tetrimino_parity(k)
                    &&& ts@[k].style == tetrimino_style(k)
                },
        decreases 7 - i,
    {
        ts.push(tetrimino(i));
        i += 1;
    }
    ts
}

/// The style a colour name stands for, or nothing for an unknown name.
pub open spec fn color_name_spec(s: Seq<char>) -> Option<Style> {
    if s == "black"@ {
        Some(Style::Black)
    } else if s == "red"@ {
        Some(Style::Red)
    } else if s == "green"@ {
        Some(Style::Green)
    } else if s == "yellow"@ {
        Some(Style::Yellow)
    } else if s == "blue"@ {
        Some(Style::Blue)
    } else if s == "magenta"@ {
        Some(Style::Magenta)
    } else if s == "cyan"@ {
        Some(Style::Cyan)
    } else if s == "white"@ {
        Some(Style::White)
    } else {
        None
    }
}

pub fn color_from_str(color_str: &str) -> (c: Style)
    requires
        color_name_spec(color_str@) is Some,
    ensures
        color_name_spec(color_str@) == Some(c),
{
    if str_eq(color_str, "black") {
        Style::Black
    } else if str_eq(color_str, "red") {
        Style::Red
    } else if str_eq(color_str, "green") {
        Style::Green
    } else if str_eq(color_str, "yellow") {
        Style::Yellow
    } else if str_eq(color_str, "blue") {
        Style::Blue
    } else if str_eq(color_str, "magenta") {
        Style::Magenta
    } else if str_eq(color_str, "cyan") {
        Style::Cyan
    } else {
        Style::White
    }
}

} // verus!

verus! {

/// A raw piece template: an ASCII mask, scanned row-major, where `*`
/// marks a cell, `.` an empty slot and a newline ends a row (any other
/// character is ignored); the rotation-center coordinates are doubled,
/// so a center on a half-integer row or column stays an integer.
pub struct RawShape<'a> {
    pub field: &'a str,
    pub ri2: i32,
    pub rj2: i32,
    pub color: &'a str,
}

/// The diffs a template scan yields from grid position (ci, cj): each
/// starred cell at (ci, cj) contributes (2*ci - ri2, 2*cj - rj2).
pub open spec fn scan_diffs(s: Seq<char>, ci: int, cj: int, ri2: int, rj2: int) -> Seq<
    (int, int),
>
    decreases s.len(),
{
    if s.len() == 0 {
        Seq::empty()
    } else {
        let c = s[0];
        let rest = s.drop_first();
        if c == '\n' {
            scan_diffs(rest, ci + 1, 0, ri2, rj2)
        } else if c == '*' {
            seq![(2 * ci - ri2, 2 * cj - rj2)] + scan_diffs(rest, ci, cj + 1, ri2, rj2)
        } else if c == '.' {
            scan_diffs(rest, ci, cj + 1, ri2, rj2)
        } else {
            scan_diffs(rest, ci, cj, ri2, rj2)
        }
    }
}

/// 1 when some diff's row offset is odd (all of them then are), else 0.
pub open spec fn parity_bit_i(diffs: Seq<(int, int)>) -> int {
    if exists|k: int| 0 <= k < diffs.len() && (#[trigger] diffs[k]).0 % 2 == 1 {
        1int
    } else {
        0int
    }
}

pub open spec fn parity_bit_j(diffs: Seq<(int, int)>) -> int {
    if exists|k: int| 0 <= k < diffs.len() && (#[trigger] diffs[k]).1 % 2 == 1 {
        1int
    } else {
        0int
    }
}

/// Compile a raw template into a piece: scan the mask row-major,
/// collect the doubled cell offsets, record per axis whether any offset
/// came out odd (the parity correction a rotation needs), and resolve
/// the colour name.
pub fn build_tetrimino(src: RawShape<'_>) -> (t: Tetrimino)
    requires
        src.field@.len() <= 1000,
        -8 <= src.ri2 <= 8,
        -8 <= src.rj2 <= 8,
        color_name_spec(src.color@) is Some,
    ensures
        points_of(t.diffs@) == scan_diffs(src.field@, 0, 0, src.ri2 as int, src.rj2 as int),
        t.parity@.0 == parity_bit_i(points_of(t.diffs@)),
        t.parity@.1 == parity_bit_j(points_of(t.diffs@)),
        color_name_spec(src.color@) == Some(t.style),
        t.consistent(),
{
    let s = src.field;
    let len = s.unicode_len();
    let ghost sv = s@;
    let mut diffs: Vec<Point> = Vec::new();
    let mut ci: i32 = 0;
    let mut cj: i32 = 0;
    let mut shift_i: i32 = 0;
    let mut shift_j: i32 = 0;
    let mut idx: usize = 0;
    proof {
        assert(sv.skip(0) =~= sv);
        assert(points_of(diffs@) =~= Seq::<(int, int)>::empty());
        assert(points_of(diffs@) + scan_diffs(sv, 0, 0, src.ri2 as int, src.rj2 as int)
            =~= scan_diffs(sv, 0, 0, src.ri2 as int, src.rj2 as int));
    }
    while idx < len
        invariant
            idx <= len,
            len == sv.len(),
            sv == s@,
            sv.len() <= 1000,
            -8 <= src.ri2 <= 8,
            -8 <= src.rj2 <= 8,
            0 <= ci <= idx,
            0 <= cj <= idx,
            scan_diffs(sv, 0, 0, src.ri2 as int, src.rj2 as int) == points_of(diffs@)
                + scan_diffs(sv.skip(idx as int), ci as int, cj as int, src.ri2 as int, src.rj2 as int),
            forall|k: int|
                0 <= k < diffs@.len() ==> {
                    let d = (#[trigger] diffs@[k])@;
                    &&& -2008 <= d.0 <= 2008
                    &&& -2008 <= d.1 <= 2008
                    &&& d.0 % 2 == (src.ri2 as int) % 2
                    &&& d.1 % 2 == (src.rj2 as int) % 2
                },
            shift_i == parity_bit_i(points_of(diffs@)),
            shift_j == parity_bit_j(points_of(diffs@)),
        decreases len - idx,
    {
        let c = s.get_char(idx);
        proof {
            assert(sv.skip(idx as int)[0] == sv[idx as int]);
            assert(sv.skip(idx as int).drop_first() =~= sv.skip(idx as int + 1));
        }
        if c == '\n' {
            ci = ci + 1;
            cj = 0;
        } else if c == '*' {
            let i = 2 * ci - src.ri2;
            let j = 2 * cj - src.rj2;
            let ghost before = points_of(diffs@);
            diffs.push(Point(i, j));
            proof {
                assert(points_of(diffs@) =~= before + seq![(i as int, j as int)]);
                assert((i as int) % 2 == (src.ri2 as int) % 2);
                assert((j as int) % 2 == (src.rj2 as int) % 2);
            }
            if i % 2 != 0 {
                shift_i = 1;
                proof {
                    assert((i as int) % 2 == 1);
                    assert(points_of(diffs@)[diffs@.len() - 1].0 % 2 == 1);
                }
            } else {
                proof {
                    if shift_i == 0 {
                        assert forall|k: int|
                            0 <= k < points_of(diffs@).len() implies (#[trigger] points_of(
                            diffs@,
                        )[k]).0 % 2 != 1 by {
                            if k < before.len() {
                                assert(points_of(diffs@)[k] == before[k]);
                            }
                        }
                    }
                }
            }
            if j % 2 != 0 {
                shift_j = 1;
                proof {
                    assert(points_of(diffs@)[diffs@.len() - 1].1 % 2 == 1);
                }
            } else {
                proof {
                    if shift_j == 0 {
                        assert forall|k: int|
                            0 <= k < points_of(diffs@).len() implies (#[trigger] points_of(
                            diffs@,
                        )[k]).1 % 2 != 1 by {
                            if k < before.len() {
                                assert(points_of(diffs@)[k] == before[k]);
                            }
                        }
                    }
                }
            }
            cj = cj + 1;
        } else if c == '.' {
            cj = cj + 1;
        }
        idx += 1;
    }
    proof {
        assert(sv.skip(len as int) =~= Seq::<char>::empty());
        assert(points_of(diffs@) + scan_diffs(
            sv.skip(len as int),
            ci as int,
            cj as int,
            src.ri2 as int,
            src.rj2 as int,
        ) =~= points_of(diffs@));
    }
    let color = color_from_str(src.color);
    let t = Tetrimino { diffs, parity: Point(shift_i, shift_j), style: color };
    proof {
        assert forall|k: int| 0 <= k < t.diffs@.len() implies {
            let d = (#[trigger] t.diffs@[k])@;
            &&& -10000 <= d.0 <= 10000
            &&& -10000 <= d.1 <= 10000
            &&& (d.0 + t.parity@.0) % 2 == 0
            &&& (d.1 + t.parity@.1) % 2 == 0
        } by {
            assert(points_of(t.diffs@)[k] == t.diffs@[k]@);
            if t.parity@.0 == 1 {
                let w = choose|q: int|
                    0 <= q < points_of(t.diffs@).len() && (#[trigger] points_of(t.diffs@)[q]).0 % 2
                        == 1;
                assert(points_of(t.diffs@)[w].0 % 2 == (src.ri2 as int) % 2);
            }
            if t.parity@.1 == 1 {
                let w = choose|q: int|
                    0 <= q < points_of(t.diffs@).len() && (#[trigger] points_of(t.diffs@)[q]).1 % 2
                        == 1;
                assert(points_of(t.diffs@)[w].1 % 2 == (src.rj2 as int) % 2);
            }
        }
    }
    t
}

/// The I template: a flat bar whose center sits between its two middle
/// cells, on a half-integer row and column.
pub fn raw_i() -> (s: RawShape<'static>)
    ensures
        s.field@ == ". . . .\n* * * *\n. . . .\n. . . ."@,
        s.ri2 == 3,
        s.rj2 == 3,
        s.color@ == "cyan"@,
        s.field@.len() <= 1000,
        color_name_spec(s.color@) is Some,
{
    proof {
        reveal_strlit(". . . .\n* * * *\n. . . .\n. . . .");
    }
    RawShape { field: ". . . .\n* * * *\n. . . .\n. . . .", ri2: 3, rj2: 3, color: "cyan" }
}

pub fn raw_o() -> (s: RawShape<'static>)
    ensures
        s.field@ == ". . . .\n. * * .\n. * * .\n. . . ."@,
        s.ri2 == 3,
        s.rj2 == 3,
        s.color@ == "yellow"@,
        s.field@.len() <= 1000,
        color_name_spec(s.color@) is Some,
{
    proof {
        reveal_strlit(". . . .\n. * * .\n. * * .\n. . . .");
    }
    RawShape { field: ". . . .\n. * * .\n. * * .\n. . . .", ri2: 3, rj2: 3, color: "yellow" }
}

pub fn raw_t() -> (s: RawShape<'static>)
    ensures
        s.field@ == ". * . .\n* * * .\n. . . .\n. . . ."@,
        s.ri2 == 2,
        s.rj2 == 2,
        s.color@ == "magenta"@,
        s.field@.len() <= 1000,
        color_name_spec(s.color@) is Some,
{
    proof {
        reveal_strlit(". * . .\n* * * .\n. . . .\n. . . .");
    }
    RawShape { field: ". * . .\n* * * .\n. . . .\n. . . .", ri2: 2, rj2: 2, color: "magenta" }
}

pub fn raw_s() -> (s: RawShape<'static>)
    ensures
        s.field@ == ". * * .\n* * . .\n. . . .\n. . . ."@,
        s.ri2 == 2,
        s.rj2 == 2,
        s.color@ == "green"@,
        s.field@.len() <= 1000,
        color_name_spec(s.color@) is Some,
{
    proof {
        reveal_strlit(". * * .\n* * . .\n. . . .\n. . . .");
    }
    RawShape { field: ". * * .\n* * . .\n. . . .\n. . . .", ri2: 2, rj2: 2, color: "green" }
}

pub fn raw_z() -> (s: RawShape<'static>)
    ensures
        s.field@ == "* * . .\n. * * .\n. . . .\n. . . ."@,
        s.ri2 == 2,
        s.rj2 == 2,
        s.color@ == "red"@,
        s.field@.len() <= 1000,
        color_name_spec(s.color@) is Some,
{
    proof {
        reveal_strlit("* * . .\n. * * .\n. . . .\n. . . .");
    }
    RawShape { field: "* * . .\n. * * .\n. . . .\n. . . .", ri2: 2, rj2: 2, color: "red" }
}

pub fn raw_j() -> (s: RawShape<'static>)
    ensures
        s.field@ == "* . . .\n* * * .\n. . . .\n. . . ."@,
        s.ri2 == 2,
        s.rj2 == 2,
        s.color@ == "blue"@,
        s.field@.len() <= 1000,
        color_name_spec(s.color@) is Some,
{
    proof {
        reveal_strlit("* . . .\n* * * .\n. . . .\n. . . .");
    }
    RawShape { field: "* . . .\n* * * .\n. . . .\n. . . .", ri2: 2, rj2: 2, color: "blue" }
}

pub fn raw_l() -> (s: RawShape<'static>)
    ensures
        s.field@ == ". . * .\n* * * .\n. . . .\n. . . ."@,
        s.ri2 == 2,
        s.rj2 == 2,
        s.color@ == "white"@,
        s.field@.len() <= 1000,
        color_name_spec(s.color@) is Some,
{
    proof {
        reveal_strlit(". . * .\n* * * .\n. . . .\n. . . .");
    }
    RawShape { field: ". . * .\n* * * .\n. . . .\n. . . .", ri2: 2, rj2: 2, color: "white" }
}

} // verus!

verus! {

/// Each shipped template compiles to exactly its catalog entry: the
/// scan of the mask, against the template's doubled center, yields the
/// very diff set the engine's piece table holds.
pub proof fn lemma_templates_match_catalog()
    ensures
        scan_diffs(". . . .\n* * * *\n. . . .\n. . . ."@, 0, 0, 3, 3) == tetrimino_diffs(0),
        scan_diffs(". . . .\n. * * .\n. * * .\n. . . ."@, 0, 0, 3, 3) == tetrimino_diffs(1),
        scan_diffs(". * . .\n* * * .\n. . . .\n. . . ."@, 0, 0, 2, 2) == tetrimino_diffs(2),
        scan_diffs(". * * .\n* * . .\n. . . .\n. . . ."@, 0, 0, 2, 2) == tetrimino_diffs(3),
        scan_diffs("* * . .\n. * * .\n. . . .\n. . . ."@, 0, 0, 2, 2) == tetrimino_diffs(4),
        scan_diffs("* . . .\n* * * .\n. . . .\n. . . ."@, 0, 0, 2, 2) == tetrimino_diffs(5),
        scan_diffs(". . * .\n* * * .\n. . . .\n. . . ."@, 0, 0, 2, 2) == tetrimino_diffs(6),
{
    reveal_with_fuel(scan_diffs, 32);
    reveal_strlit(". . . .\n* * * *\n. . . .\n. . . .");
    assert(scan_diffs(". . . .\n* * * *\n. . . .\n. . . ."@, 0, 0, 3, 3) =~= tetrimino_diffs(0));
    reveal_strlit(". . . .\n. * * .\n. * * .\n. . . .");
    assert(scan_diffs(". . . .\n. * * .\n. * * .\n. . . ."@, 0, 0, 3, 3) =~= tetrimino_diffs(1));
    reveal_strlit(". * . .\n* * * .\n. . . .\n. . . .");
    assert(scan_diffs(". * . .\n* * * .\n. . . .\n. . . ."@, 0, 0, 2, 2) =~= tetrimino_diffs(2));
    reveal_strlit(". * * .\n* * . .\n. . . .\n. . . .");
    assert(scan_diffs(". * * .\n* * . .\n. . . .\n. . . ."@, 0, 0, 2, 2) =~= tetrimino_diffs(3));
    reveal_strlit("* * . .\n. * * .\n. . . .\n. . . .");
    assert(scan_diffs("* * . .\n. * * .\n. . . .\n. . . ."@, 0, 0, 2, 2) =~= tetrimino_diffs(4));
    reveal_strlit("* . . .\n* * * .\n. . . .\n. . . .");
    assert(scan_diffs("* . . .\n* * * .\n. . . .\n. . . ."@, 0, 0, 2, 2) =~= tetrimino_diffs(5));
    reveal_strlit(". . * .\n* * * .\n. . . .\n. . . .");
    assert(scan_diffs(". . * .\n* * * .\n. . . .\n. . . ."@, 0, 0, 2, 2) =~= tetrimino_diffs(6));
}

} // verus!
