//! Cubic voxel grids and their geometric operations.
//!
//! A `Piece` is a cube of edge length `size` whose cells hold small
//! occupancy counts, stored flat in x-fastest order: the cell at
//! coordinates `(x, y, z)` lives at index `x + size*y + size*size*z`.
//! All operations build new grids; none mutates its receiver.

use vstd::arithmetic::div_mod::{
    lemma_fundamental_div_mod, lemma_fundamental_div_mod_converse_div,
    lemma_fundamental_div_mod_converse_mod, lemma_mod_division_less_than_divisor,
};
use vstd::prelude::*;

verus! {

/// One of the three coordinate axes, naming the direction of a
/// translation.
#[derive(Debug, Clone, Copy, PartialEq, Eq, Structural)]
pub enum Direction {
    X,
    Y,
    Z,
}

/// The coordinate of `(x, y, z)` along the given axis.
pub open spec fn axis_coord(x: int, y: int, z: int, direction: Direction) -> int {
    match direction {
        Direction::X => x,
        Direction::Y => y,
        Direction::Z => z,
    }
}

/// Mathematical model of a voxel grid: the edge length and the flat
/// sequence of cell values.
#[verifier::ext_equal]
pub ghost struct PieceModel {
    pub size: nat,
    pub cells: Seq<u8>,
}

/// The flat index of the cell at `(x, y, z)` in a grid of edge length `s`.
pub open spec fn flat_index(s: int, x: int, y: int, z: int) -> int {
    x + s * (y + s * z)
}

/// The x coordinate of the cell at flat index `i`.
pub open spec fn coord_x(s: int, i: int) -> int {
    i % s
}

/// The y coordinate of the cell at flat index `i`.
pub open spec fn coord_y(s: int, i: int) -> int {
    (i / s) % s
}

/// The z coordinate of the cell at flat index `i`.
pub open spec fn coord_z(s: int, i: int) -> int {
    (i / s) / s
}

impl PieceModel {
    /// A grid is well formed when it has exactly `size^3` cells.
    pub open spec fn wf(self) -> bool {
        self.cells.len() == self.size * self.size * self.size
    }

    /// Whether `(x, y, z)` lies inside the grid.
    pub open spec fn in_bounds(self, x: int, y: int, z: int) -> bool {
        0 <= x < self.size && 0 <= y < self.size && 0 <= z < self.size
    }

    /// The value of the cell at `(x, y, z)`.
    pub open spec fn cell(self, x: int, y: int, z: int) -> u8 {
        self.cells[flat_index(self.size as int, x, y, z)]
    }

    /// Every cell holds 0 or 1: the shape of a piece, or of a partial
    /// packing in which no cell is claimed twice.
    pub open spec fn binary(self) -> bool {
        forall|i: int| 0 <= i < self.cells.len() ==> #[trigger] self.cells[i] <= 1
    }

    /// Quarter turn about the z axis: the new cell at `(x, y, z)` takes
    /// the old value at `(y, size-1-x, z)`.
    pub open spec fn rot_z(self) -> PieceModel {
        let s = self.size as int;
        PieceModel {
            size: self.size,
            cells: Seq::new(
                self.cells.len(),
                |i: int|
                    self.cells[flat_index(
                        s,
                        coord_y(s, i),
                        s - 1 - coord_x(s, i),
                        coord_z(s, i),
                    )],
            ),
        }
    }

    /// Quarter turn about the y axis: the new cell at `(x, y, z)` takes
    /// the old value at `(z, y, size-1-x)`.
    pub open spec fn rot_y(self) -> PieceModel {
        let s = self.size as int;
        PieceModel {
            size: self.size,
            cells: Seq::new(
                self.cells.len(),
                |i: int|
                    self.cells[flat_index(
                        s,
                        coord_z(s, i),
                        coord_y(s, i),
                        s - 1 - coord_x(s, i),
                    )],
            ),
        }
    }

    /// Whether shifting by `d` along `direction` would push some occupied
    /// cell out of the grid.
    pub open spec fn shift_escapes(self, d: int, direction: Direction) -> bool {
        exists|x: int, y: int, z: int|
            self.in_bounds(x, y, z) && #[trigger] self.cell(x, y, z) != 0 && !(0 <= axis_coord(
                x,
                y,
                z,
                direction,
            ) + d < self.size)
    }

    /// Axis-aligned translation by `d` cells. Fails when `d` is zero, when
    /// its magnitude reaches the edge length, or when an occupied cell
    /// would leave the grid; otherwise the occupancy moves `d` steps along
    /// the axis and vacated cells become 0.
    pub open spec fn translate(self, d: int, direction: Direction) -> Option<PieceModel> {
        let s = self.size as int;
        if d == 0 || d <= -s || s <= d || self.shift_escapes(d, direction) {
            None
        } else {
            Some(
                PieceModel {
                    size: self.size,
                    cells: Seq::new(
                        self.cells.len(),
                        |i: int|
                            {
                                let sx = coord_x(s, i) - (if direction is X {
                                    d
                                } else {
                                    0
                                });
                                let sy = coord_y(s, i) - (if direction is Y {
                                    d
                                } else {
                                    0
                                });
                                let sz = coord_z(s, i) - (if direction is Z {
                                    d
                                } else {
                                    0
                                });
                                if 0 <= sx < s && 0 <= sy < s && 0 <= sz < s {
                                    self.cells[flat_index(s, sx, sy, sz)]
                                } else {
                                    0
                                }
                            },
                    ),
                },
            )
        }
    }

    /// Whether some cell is claimed by both grids.
    pub open spec fn overlaps(self, other: PieceModel) -> bool {
        exists|i: int|
            0 <= i < self.cells.len() && self.cells[i] == 1 && #[trigger] other.cells[i] == 1
    }

    /// Cell-wise composition: fails exactly on overlap, otherwise sums
    /// the two grids.
    pub open spec fn compose(self, other: PieceModel) -> Option<PieceModel> {
        if self.overlaps(other) {
            None
        } else {
            Some(
                PieceModel {
                    size: self.size,
                    cells: Seq::new(
                        self.cells.len(),
                        |i: int| (self.cells[i] + other.cells[i]) as u8,
                    ),
                },
            )
        }
    }
}

/// The models of an optional grid.
pub open spec fn opt_model(r: Option<Piece>) -> Option<PieceModel> {
    match r {
        Some(p) => Some(p@),
        None => None,
    }
}

pub proof fn lemma_flat_index_bounds(s: int, x: int, y: int, z: int)
    requires
        0 <= x < s,
        0 <= y < s,
        0 <= z < s,
    ensures
        0 <= flat_index(s, x, y, z) < s * s * s,
{
    assert(0 <= x + s * (y + s * z) < s * s * s) by (nonlinear_arith)
        requires
            0 <= x < s,
            0 <= y < s,
            0 <= z < s,
    ;
}

/// Decoding the flat index of `(x, y, z)` recovers the coordinates.
pub proof fn lemma_flat_index_decode(s: int, x: int, y: int, z: int)
    requires
        0 <= x < s,
        0 <= y < s,
        0 <= z < s,
    ensures
        coord_x(s, flat_index(s, x, y, z)) == x,
        coord_y(s, flat_index(s, x, y, z)) == y,
        coord_z(s, flat_index(s, x, y, z)) == z,
{
    let i = flat_index(s, x, y, z);
    let q = y + s * z;
    assert(i == q * s + x) by (nonlinear_arith)
        requires
            i == x + s * q,
    ;
    lemma_fundamental_div_mod_converse_mod(i, s, q, x);
    lemma_fundamental_div_mod_converse_div(i, s, q, x);
    assert(q == z * s + y) by (nonlinear_arith)
        requires
            q == y + s * z,
    ;
    lemma_fundamental_div_mod_converse_mod(q, s, z, y);
    lemma_fundamental_div_mod_converse_div(q, s, z, y);
}

/// Every flat index below `s^3` decodes to in-range coordinates that
/// encode back to it.
pub proof fn lemma_coord_decode(s: int, i: int)
    requires
        s >= 1,
        0 <= i < s * s * s,
    ensures
        0 <= coord_x(s, i) < s,
        0 <= coord_y(s, i) < s,
        0 <= coord_z(s, i) < s,
        flat_index(s, coord_x(s, i), coord_y(s, i), coord_z(s, i)) == i,
{
    lemma_mod_division_less_than_divisor(i, s);
    lemma_fundamental_div_mod(i, s);
    let q = i / s;
    assert(q >= 0) by (nonlinear_arith)
        requires
            i == s * q + i % s,
            i >= 0,
            0 <= i % s < s,
            s >= 1,
    ;
    assert(q < s * s) by (nonlinear_arith)
        requires
            i == s * q + i % s,
            i < s * s * s,
            i % s >= 0,
            s >= 1,
    ;
    lemma_mod_division_less_than_divisor(q, s);
    lemma_fundamental_div_mod(q, s);
    assert(q / s < s) by (nonlinear_arith)
        requires
            q == s * (q / s) + q % s,
            q < s * s,
            q % s >= 0,
            s >= 1,
    ;
    assert(q / s >= 0) by (nonlinear_arith)
        requires
            q == s * (q / s) + q % s,
            q >= 0,
            0 <= q % s < s,
            s >= 1,
    ;
    assert(flat_index(s, coord_x(s, i), coord_y(s, i), coord_z(s, i)) == i);
}

/// Two well-formed grids of one size with equal cells everywhere are equal.
pub proof fn lemma_piece_model_ext(a: PieceModel, b: PieceModel)
    requires
        a.wf(),
        b.wf(),
        a.size == b.size,
        forall|x: int, y: int, z: int|
            a.in_bounds(x, y, z) ==> a.cell(x, y, z) == b.cell(x, y, z),
    ensures
        a == b,
{
    let s = a.size as int;
    assert forall|i: int| 0 <= i < a.cells.len() implies a.cells[i] == b.cells[i] by {
        assert(s >= 1) by (nonlinear_arith)
            requires
                s * s * s > i >= 0,
        ;
        lemma_coord_decode(s, i);
        assert(a.cell(coord_x(s, i), coord_y(s, i), coord_z(s, i))
            == b.cell(coord_x(s, i), coord_y(s, i), coord_z(s, i)));
    }
    assert(a.cells =~= b.cells);
    assert(a =~= b);
}

/// `m` turned `n` quarter turns about the z axis.
pub open spec fn rot_z_n(m: PieceModel, n: nat) -> PieceModel
    decreases n,
{
    if n == 0 {
        m
    } else {
        rot_z_n(m, (n - 1) as nat).rot_z()
    }
}

/// `m` turned `n` quarter turns about the y axis.
pub open spec fn rot_y_n(m: PieceModel, n: nat) -> PieceModel
    decreases n,
{
    if n == 0 {
        m
    } else {
        rot_y_n(m, (n - 1) as nat).rot_y()
    }
}

/// The grid entering face `f` of the six-face walk: faces 1 to 3 follow by
/// a y turn each, face 4 by a y-z-y sequence, face 5 by two y turns.
pub open spec fn face_state(m: PieceModel, f: nat) -> PieceModel
    decreases f,
{
    if f == 0 {
        m
    } else {
        let prev = face_state(m, (f - 1) as nat);
        if f <= 3 {
            prev.rot_y()
        } else if f == 4 {
            prev.rot_y().rot_z().rot_y()
        } else {
            prev.rot_y().rot_y()
        }
    }
}

/// Orientation `(f, sp)` of a grid: face `f` of the walk, then `sp` extra
/// z spins. Over `f` in 0..6 and `sp` in 0..4 this enumerates the
/// orientations the search tries.
pub open spec fn orientation(m: PieceModel, f: int, sp: int) -> PieceModel {
    rot_z_n(face_state(m, f as nat), sp as nat)
}

/// What one cell of a z rotation holds.
pub proof fn lemma_rot_z_cell(m: PieceModel, x: int, y: int, z: int)
    requires
        m.wf(),
        m.in_bounds(x, y, z),
    ensures
        m.rot_z().cell(x, y, z) == m.cell(y, m.size - 1 - x, z),
{
    let s = m.size as int;
    lemma_flat_index_bounds(s, x, y, z);
    lemma_flat_index_decode(s, x, y, z);
}

/// What one cell of a y rotation holds.
pub proof fn lemma_rot_y_cell(m: PieceModel, x: int, y: int, z: int)
    requires
        m.wf(),
        m.in_bounds(x, y, z),
    ensures
        m.rot_y().cell(x, y, z) == m.cell(z, y, m.size - 1 - x),
{
    let s = m.size as int;
    lemma_flat_index_bounds(s, x, y, z);
    lemma_flat_index_decode(s, x, y, z);
}

/// Rotations keep a grid well formed, keep its size, and keep its cells
/// drawn from {0, 1}.
pub proof fn lemma_rot_props(m: PieceModel)
    requires
        m.wf(),
    ensures
        m.rot_z().wf(),
        m.rot_z().size == m.size,
        m.rot_y().wf(),
        m.rot_y().size == m.size,
        m.binary() ==> m.rot_z().binary(),
        m.binary() ==> m.rot_y().binary(),
{
    let s = m.size as int;
    if m.binary() {
        assert forall|i: int| 0 <= i < m.rot_z().cells.len() implies #[trigger] m.rot_z().cells[i]
            <= 1 by {
            assert(s >= 1) by (nonlinear_arith)
                requires
                    s * s * s > i >= 0,
            ;
            lemma_coord_decode(s, i);
            lemma_flat_index_bounds(s, coord_y(s, i), s - 1 - coord_x(s, i), coord_z(s, i));
        }
        assert forall|i: int| 0 <= i < m.rot_y().cells.len() implies #[trigger] m.rot_y().cells[i]
            <= 1 by {
            assert(s >= 1) by (nonlinear_arith)
                requires
                    s * s * s > i >= 0,
            ;
            lemma_coord_decode(s, i);
            lemma_flat_index_bounds(s, coord_z(s, i), coord_y(s, i), s - 1 - coord_x(s, i));
        }
    }
}

/// Four z turns return any well-formed grid to itself.
pub proof fn lemma_rot_z_order_four(m: PieceModel)
    requires
        m.wf(),
    ensures
        rot_z_n(m, 4) == m,
{
    let s = m.size as int;
    let m1 = m.rot_z();
    let m2 = m1.rot_z();
    let m3 = m2.rot_z();
    let m4 = m3.rot_z();
    lemma_rot_props(m);
    lemma_rot_props(m1);
    lemma_rot_props(m2);
    lemma_rot_props(m3);
    assert(rot_z_n(m, 0) == m);
    assert(rot_z_n(m, 1) == m1);
    assert(rot_z_n(m, 2) == m2);
    assert(rot_z_n(m, 3) == m3);
    assert(rot_z_n(m, 4) == m4);
    assert forall|x: int, y: int, z: int| m4.in_bounds(x, y, z) implies m4.cell(x, y, z) == m.cell(
        x,
        y,
        z,
    ) by {
        lemma_rot_z_cell(m3, x, y, z);
        lemma_rot_z_cell(m2, y, s - 1 - x, z);
        lemma_rot_z_cell(m1, s - 1 - x, s - 1 - y, z);
        lemma_rot_z_cell(m, s - 1 - y, x, z);
    }
    lemma_piece_model_ext(m4, m);
}

/// Four y turns return any well-formed grid to itself.
pub proof fn lemma_rot_y_order_four(m: PieceModel)
    requires
        m.wf(),
    ensures
        rot_y_n(m, 4) == m,
{
    let s = m.size as int;
    let m1 = m.rot_y();
    let m2 = m1.rot_y();
    let m3 = m2.rot_y();
    let m4 = m3.rot_y();
    lemma_rot_props(m);
    lemma_rot_props(m1);
    lemma_rot_props(m2);
    lemma_rot_props(m3);
    assert(rot_y_n(m, 0) == m);
    assert(rot_y_n(m, 1) == m1);
    assert(rot_y_n(m, 2) == m2);
    assert(rot_y_n(m, 3) == m3);
    assert(rot_y_n(m, 4) == m4);
    assert forall|x: int, y: int, z: int| m4.in_bounds(x, y, z) implies m4.cell(x, y, z) == m.cell(
        x,
        y,
        z,
    ) by {
        lemma_rot_y_cell(m3, x, y, z);
        lemma_rot_y_cell(m2, z, y, s - 1 - x);
        lemma_rot_y_cell(m1, s - 1 - x, y, s - 1 - z);
        lemma_rot_y_cell(m, s - 1 - z, y, x);
    }
    lemma_piece_model_ext(m4, m);
}

/// A successful translation keeps a grid well formed, keeps its size, and
/// keeps its cells drawn from {0, 1}.
pub proof fn lemma_translate_props(m: PieceModel, d: int, direction: Direction)
    requires
        m.wf(),
    ensures
        m.translate(d, direction) matches Some(t) ==> {
            &&& t.wf()
            &&& t.size == m.size
            &&& (m.binary() ==> t.binary())
        },
{
    let s = m.size as int;
    if m.translate(d, direction) is Some && m.binary() {
        let t = m.translate(d, direction).unwrap();
        assert forall|i: int| 0 <= i < t.cells.len() implies #[trigger] t.cells[i] <= 1 by {
            assert(s >= 1) by (nonlinear_arith)
                requires
                    s * s * s > i >= 0,
            ;
            lemma_coord_decode(s, i);
            let sx = coord_x(s, i) - (if direction is X {
                d
            } else {
                0
            });
            let sy = coord_y(s, i) - (if direction is Y {
                d
            } else {
                0
            });
            let sz = coord_z(s, i) - (if direction is Z {
                d
            } else {
                0
            });
            if 0 <= sx < s && 0 <= sy < s && 0 <= sz < s {
                lemma_flat_index_bounds(s, sx, sy, sz);
            }
        }
    }
}

/// A successful composition of two binary grids of one size is well
/// formed, keeps the size, and is again binary: overlap was excluded, so
/// no cell of the sum exceeds 1.
pub proof fn lemma_compose_props(a: PieceModel, b: PieceModel)
    requires
        a.wf(),
        b.wf(),
        a.size == b.size,
        a.binary(),
        b.binary(),
    ensures
        a.compose(b) matches Some(c) ==> {
            &&& c.wf()
            &&& c.size == a.size
            &&& c.binary()
        },
{
    if a.compose(b) is Some {
        let c = a.compose(b).unwrap();
        assert(!a.overlaps(b));
        assert forall|i: int| 0 <= i < c.cells.len() implies #[trigger] c.cells[i] <= 1 by {
            assert(a.cells[i] <= 1);
            assert(b.cells[i] <= 1);
            assert(!(a.cells[i] == 1 && b.cells[i] == 1));
        }
    }
}

/// A cubic voxel grid of edge length `size` with `size^3` cells, stored
/// flat in x-fastest order.
#[derive(Debug)]
pub struct Piece {
    pub(crate) size: usize,
    pub(crate) cells: Vec<u8>,
}

impl View for Piece {
    type V = PieceModel;

    closed spec fn view(&self) -> PieceModel {
        PieceModel { size: self.size as nat, cells: self.cells@ }
    }
}

impl Clone for Piece {
    fn clone(&self) -> (r: Self)
        ensures
            r@ == self@,
    {
        let mut cells: Vec<u8> = Vec::new();
        let mut i: usize = 0;
        while i < self.cells.len()
            invariant
                i <= self.cells.len(),
                cells@ == self.cells@.subrange(0, i as int),
            decreases self.cells.len() - i,
        {
            cells.push(self.cells[i]);
            i = i + 1;
        }
        assert(cells@ =~= self.cells@);
        let r = Piece { size: self.size, cells };
        assert(r@ =~= self@);
        r
    }
}

impl PartialEq for Piece {
    fn eq(&self, other: &Self) -> (r: bool) {
        if self.size != other.size || self.cells.len() != other.cells.len() {
            return false;
        }
        let mut i: usize = 0;
        while i < self.cells.len()
            invariant
                i <= self.cells.len(),
                self.cells.len() == other.cells.len(),
                forall|j: int| 0 <= j < i ==> self.cells@[j] == other.cells@[j],
            decreases self.cells.len() - i,
        {
            if self.cells[i] != other.cells[i] {
                return false;
            }
            i = i + 1;
        }
        proof {
            assert(self.cells@ =~= other.cells@);
        }
        true
    }
}

impl Eq for Piece {

}

impl vstd::std_specs::cmp::PartialEqSpecImpl for Piece {
    open spec fn obeys_eq_spec() -> bool {
        true
    }

    open spec fn eq_spec(&self, other: &Piece) -> bool {
        self@ == other@
    }
}

impl Piece {
    /// Builds a grid of edge length `size` from a flat occupancy list,
    /// zero-padded to `size^3` cells. Fails exactly when the list is
    /// longer than `size^3`.
    pub fn new(size: usize, pieces: &[u8]) -> (r: Option<Piece>)
        requires
            size * size * size <= usize::MAX,
        ensures
            r is Some <==> pieces@.len() <= size * size * size,
            r matches Some(p) ==> {
                &&& p@.size == size
                &&& p@.wf()
                &&& forall|i: int| 0 <= i < pieces@.len() ==> p@.cells[i] == pieces@[i]
                &&& forall|i: int|
                    pieces@.len() <= i < p@.cells.len() ==> p@.cells[i] == 0
            },
    {
        proof {
            assert(size * size <= size * size * size || size == 0) by (nonlinear_arith);
        }
        let volume = size * size * size;
        if pieces.len() > volume {
            return None;
        }
        let mut cells: Vec<u8> = Vec::new();
        let mut i: usize = 0;
        while i < pieces.len()
            invariant
                i <= pieces@.len(),
                cells@ == pieces@.subrange(0, i as int),
            decreases pieces@.len() - i,
        {
            cells.push(pieces[i]);
            i = i + 1;
        }
        while cells.len() < volume
            invariant
                pieces@.len() <= cells@.len() <= volume,
                forall|j: int| 0 <= j < pieces@.len() ==> cells@[j] == pieces@[j],
                forall|j: int| pieces@.len() <= j < cells@.len() ==> cells@[j] == 0,
            decreases volume - cells@.len(),
        {
            cells.push(0);
        }
        Some(Piece { size, cells })
    }

    /// The flat index of `(x, y, z)` in a grid of edge length `s`.
    pub fn index_with_size(s: usize, x: usize, y: usize, z: usize) -> (r: usize)
        requires
            x < s,
            y < s,
            z < s,
            s * s * s <= usize::MAX,
        ensures
            r == flat_index(s as int, x as int, y as int, z as int),
            r < s * s * s,
    {
        proof {
            lemma_flat_index_bounds(s as int, x as int, y as int, z as int);
            assert(y + s * z <= flat_index(s as int, x as int, y as int, z as int))
                by (nonlinear_arith)
                requires
                    x >= 0,
                    z >= 0,
                    s >= 1,
            ;
        }
        x + s * (y + s * z)
    }

    /// A quarter turn about the z axis, as a new grid.
    pub fn z_rotation(&self) -> (r: Self)
        requires
            self@.wf(),
        ensures
            r@ == self@.rot_z(),
    {
        let s = self.size;
        let n = self.cells.len();
        let mut cells: Vec<u8> = Vec::new();
        let mut i: usize = 0;
        while i < n
            invariant
                self@.wf(),
                s == self@.size,
                n == self@.cells.len(),
                i <= n,
                cells@.len() == i,
                forall|j: int| 0 <= j < i ==> cells@[j] == self@.rot_z().cells[j],
            decreases n - i,
        {
            proof {
                assert(s >= 1) by (nonlinear_arith)
                    requires
                        s * s * s > 0,
                ;
                lemma_coord_decode(s as int, i as int);
            }
            let x = i % s;
            let y = (i / s) % s;
            let z = (i / s) / s;
            let src = self.index(y, s - 1 - x, z);
            cells.push(self.cells[src]);
            i = i + 1;
        }
        let r = Piece { size: self.size, cells };
        proof {
            assert(r@.cells =~= self@.rot_z().cells);
            assert(r@ =~= self@.rot_z());
        }
        r
    }

    /// A quarter turn about the y axis, as a new grid.
    pub fn y_rotation(&self) -> (r: Self)
        requires
            self@.wf(),
        ensures
            r@ == self@.rot_y(),
    {
        let s = self.size;
        let n = self.cells.len();
        let mut cells: Vec<u8> = Vec::new();
        let mut i: usize = 0;
        while i < n
            invariant
                self@.wf(),
                s == self@.size,
                n == self@.cells.len(),
                i <= n,
                cells@.len() == i,
                forall|j: int| 0 <= j < i ==> cells@[j] == self@.rot_y().cells[j],
            decreases n - i,
        {
            proof {
                assert(s >= 1) by (nonlinear_arith)
                    requires
                        s * s * s > 0,
                ;
                lemma_coord_decode(s as int, i as int);
            }
            let x = i % s;
            let y = (i / s) % s;
            let z = (i / s) / s;
            let src = self.index(z, y, s - 1 - x);
            cells.push(self.cells[src]);
            i = i + 1;
        }
        let r = Piece { size: self.size, cells };
        proof {
            assert(r@.cells =~= self@.rot_y().cells);
            assert(r@ =~= self@.rot_y());
        }
        r
    }

    /// Cell-wise composition of two grids of one size. Fails exactly when
    /// some cell is occupied (holds 1) in both grids; otherwise each cell
    /// of the result is the sum of the two inputs' cells.
    pub fn append(&self, other: &Self) -> (r: Option<Self>)
        requires
            self@.wf(),
            other@.wf(),
            self@.size == other@.size,
            forall|i: int|
                0 <= i < self@.cells.len() ==> self@.cells[i] + #[trigger] other@.cells[i] <= 255,
        ensures
            opt_model(r) == self@.compose(other@),
    {
        let n = self.cells.len();
        let mut cells: Vec<u8> = Vec::new();
        let mut i: usize = 0;
        while i < n
            invariant
                self@.wf(),
                other@.wf(),
                self@.size == other@.size,
                n == self@.cells.len(),
                n == other@.cells.len(),
                forall|k: int|
                    0 <= k < n ==> self@.cells[k] + #[trigger] other@.cells[k] <= 255,
                i <= n,
                cells@.len() == i,
                forall|j: int|
                    0 <= j < i ==> !(self@.cells[j] == 1 && #[trigger] other@.cells[j] == 1),
                forall|j: int|
                    0 <= j < i ==> cells@[j] == (self@.cells[j] + other@.cells[j]) as u8,
            decreases n - i,
        {
            let a = self.cells[i];
            let b = other.cells[i];
            if a == 1 && b == 1 {
                proof {
                    assert(self@.overlaps(other@));
                }
                return None;
            }
            cells.push(a + b);
            i = i + 1;
        }
        let r = Piece { size: self.size, cells };
        proof {
            assert(!self@.overlaps(other@));
            assert(r@.cells =~= self@.compose(other@).unwrap().cells);
            assert(r@ =~= self@.compose(other@).unwrap());
        }
        Some(r)
    }

    /// Shifts the occupancy by `d` cells along `direction`, as a new grid.
    /// Fails when `d` is zero, when its magnitude reaches the edge length,
    /// or when an occupied cell would be pushed out of the grid.
    #[verifier::loop_isolation(false)]
    pub fn translation(&self, d: isize, direction: Direction) -> (r: Option<Self>)
        requires
            self@.wf(),
        ensures
            opt_model(r) == self@.translate(d as int, direction),
    {
        let ghost dm = d as int;
        if d == 0 {
            return None;
        }
        let s = self.size;
        let n = self.cells.len();
        proof {
            lemma_edge_fits(self@);
        }
        let si: isize = s as isize;
        if d <= -si || si <= d {
            return None;
        }
        let mut i: usize = 0;
        while i < n
            invariant
                i <= n,
                forall|x: int, y: int, z: int|
                    self@.in_bounds(x, y, z) && flat_index(s as int, x, y, z) < i && #[trigger] self@.cell(
                        x,
                        y,
                        z,
                    ) != 0 ==> 0 <= axis_coord(x, y, z, direction) + dm < s,
            decreases n - i,
        {
            proof {
                assert(s >= 1) by (nonlinear_arith)
                    requires
                        s * s * s > 0,
                ;
                lemma_coord_decode(s as int, i as int);
            }
            let x = i % s;
            let y = (i / s) % s;
            let z = (i / s) / s;
            let c: usize = match direction {
                Direction::X => x,
                Direction::Y => y,
                Direction::Z => z,
            };
            if self.cells[i] != 0 {
                let shifted: isize = c as isize + d;
                if shifted < 0 || shifted >= si {
                    proof {
                        assert(self@.cell(x as int, y as int, z as int) != 0);
                        assert(self@.shift_escapes(dm, direction));
                    }
                    return None;
                }
                proof {
                    assert forall|xx: int, yy: int, zz: int|
                        self@.in_bounds(xx, yy, zz) && flat_index(s as int, xx, yy, zz) == i
                            && #[trigger] self@.cell(xx, yy, zz) != 0 implies 0 <= axis_coord(
                        xx,
                        yy,
                        zz,
                        direction,
                    ) + dm < s by {
                        lemma_flat_index_decode(s as int, xx, yy, zz);
                    }
                }
            } else {
                proof {
                    assert forall|xx: int, yy: int, zz: int|
                        self@.in_bounds(xx, yy, zz) && flat_index(s as int, xx, yy, zz) == i
                            && #[trigger] self@.cell(xx, yy, zz) != 0 implies 0 <= axis_coord(
                        xx,
                        yy,
                        zz,
                        direction,
                    ) + dm < s by {
                        lemma_flat_index_decode(s as int, xx, yy, zz);
                        assert(self@.cell(xx, yy, zz) == self@.cells[i as int]);
                    }
                }
            }
            i = i + 1;
        }
        proof {
            assert forall|x: int, y: int, z: int|
                self@.in_bounds(x, y, z) && #[trigger] self@.cell(x, y, z)
                    != 0 implies 0 <= axis_coord(x, y, z, direction) + dm < s by {
                lemma_flat_index_bounds(s as int, x, y, z);
            }
            assert(!self@.shift_escapes(dm, direction));
        }
        let ghost target = self@.translate(dm, direction).unwrap();
        let mut cells: Vec<u8> = Vec::new();
        let mut i: usize = 0;
        while i < n
            invariant
                i <= n,
                cells@.len() == i,
                forall|j: int| 0 <= j < i ==> cells@[j] == target.cells[j],
            decreases n - i,
        {
            proof {
                lemma_coord_decode(s as int, i as int);
            }
            let x = i % s;
            let y = (i / s) % s;
            let z = (i / s) / s;
            let c: usize = match direction {
                Direction::X => x,
                Direction::Y => y,
                Direction::Z => z,
            };
            let sc: isize = c as isize - d;
            let v: u8;
            if sc < 0 || sc >= si {
                v = 0;
            } else {
                let scu = sc as usize;
                let src = match direction {
                    Direction::X => self.index(scu, y, z),
                    Direction::Y => self.index(x, scu, z),
                    Direction::Z => self.index(x, y, scu),
                };
                v = self.cells[src];
            }
            proof {
                assert(v == target.cells[i as int]);
            }
            cells.push(v);
            i = i + 1;
        }
        let r = Piece { size: s, cells };
        proof {
            assert(r@.cells =~= target.cells);
            assert(r@ =~= target);
        }
        Some(r)
    }

    /// The edge length of the grid.
    pub fn size(&self) -> (r: usize)
        ensures
            r == self@.size,
    {
        self.size
    }

    /// The number of cells of the grid.
    pub fn num_cells(&self) -> (r: usize)
        ensures
            r == self@.cells.len(),
    {
        self.cells.len()
    }

    /// The value of the cell at `(x, y, z)`.
    pub fn cell_at(&self, x: usize, y: usize, z: usize) -> (r: u8)
        requires
            self@.wf(),
            x < self@.size,
            y < self@.size,
            z < self@.size,
        ensures
            r == self@.cell(x as int, y as int, z as int),
    {
        let i = self.index(x, y, z);
        self.cells[i]
    }

    /// The flat index of `(x, y, z)` in this grid.
    pub fn index(&self, x: usize, y: usize, z: usize) -> (r: usize)
        requires
            self@.wf(),
            x < self@.size,
            y < self@.size,
            z < self@.size,
        ensures
            r == flat_index(self@.size as int, x as int, y as int, z as int),
            r < self@.cells.len(),
    {
        let n = self.cells.len();
        proof {
            assert(n == self@.size * self@.size * self@.size);
        }
        Self::index_with_size(self.size, x, y, z)
    }
}

/// The edge length of a well-formed grid is small: its cube fits in a
/// machine word, so the edge itself is far below `isize::MAX`.
pub proof fn lemma_edge_fits(m: PieceModel)
    requires
        m.wf(),
        m.cells.len() <= usize::MAX,
    ensures
        m.size <= 2642245,
        m.size <= isize::MAX,
{
    if m.size > 2642245 {
        assert(m.size * m.size * m.size > 0xffff_ffff_ffff_ffff) by (nonlinear_arith)
            requires
                m.size >= 2642246,
        ;
    }
}

} // verus!
