//! Laws of the grid operations and of the search.
//!
//! These proof functions state, once and for all inputs, the properties
//! the library rests on: the order of the rotation primitives, the
//! rejection of out-of-bounds translations, the exact behaviour of
//! composition on disjoint and on overlapping grids, and the pigeonhole
//! bound that rules out packings whose pieces carry too many cells.

use crate::piece::{
    axis_coord, coord_x, coord_y, coord_z, face_state, flat_index, lemma_compose_props,
    lemma_coord_decode, lemma_flat_index_bounds, lemma_flat_index_decode, lemma_rot_props,
    lemma_rot_y_order_four, lemma_rot_z_order_four, lemma_translate_props, orientation, rot_y_n,
    rot_z_n, Direction, PieceModel,
};
use crate::search::{
    branch_succeeds, offset_in_range, placed, search_inputs_ok, shift_step, solvable_from,
};
use vstd::prelude::*;
use vstd::relations::injective_on;
use vstd::set_lib::{
    lemma_int_range, lemma_len_subset, lemma_map_size, lemma_set_disjoint_lens, set_int_range,
};

verus! {

/// A grid with no rotational symmetry: no orientation of the search's
/// enumeration but the identity maps it to itself.
pub open spec fn asymmetric(m: PieceModel) -> bool {
    forall|f: int, sp: int|
        0 <= f < 6 && 0 <= sp < 4 && !(f == 0 && sp == 0) ==> #[trigger] orientation(m, f, sp)
            != m
}

/// One, two or three quarter turns of a grid without rotational symmetry
/// differ from the grid, about either axis. (Four turns return it: see
/// the order-four lemmas beside the rotations.)
pub proof fn lemma_rotation_nontrivial(m: PieceModel, j: int)
    requires
        m.wf(),
        asymmetric(m),
        1 <= j <= 3,
    ensures
        rot_z_n(m, j as nat) != m,
        rot_y_n(m, j as nat) != m,
{
    assert(face_state(m, 0) == m);
    assert(rot_z_n(m, 0) == m);
    assert(orientation(m, 0, j) == rot_z_n(m, j as nat));
    assert(face_state(m, 1) == m.rot_y());
    assert(face_state(m, 2) == face_state(m, 1).rot_y());
    assert(face_state(m, 3) == face_state(m, 2).rot_y());
    assert(rot_y_n(m, 0) == m);
    assert(rot_y_n(m, 1) == m.rot_y());
    assert(rot_y_n(m, 2) == rot_y_n(m, 1).rot_y());
    assert(rot_y_n(m, 3) == rot_y_n(m, 2).rot_y());
    assert(orientation(m, j, 0) == rot_y_n(m, j as nat));
}

/// Spins compose additively.
proof fn lemma_rot_z_n_add(m: PieceModel, a: nat, b: nat)
    ensures
        rot_z_n(rot_z_n(m, a), b) == rot_z_n(m, a + b),
    decreases b,
{
    if b > 0 {
        lemma_rot_z_n_add(m, a, (b - 1) as nat);
    }
}

/// Turns about the y axis compose additively.
proof fn lemma_rot_y_n_add(m: PieceModel, a: nat, b: nat)
    ensures
        rot_y_n(rot_y_n(m, a), b) == rot_y_n(m, a + b),
    decreases b,
{
    if b > 0 {
        lemma_rot_y_n_add(m, a, (b - 1) as nat);
    }
}

/// Distinct numbers of quarter turns, up to three, give pairwise distinct
/// grids when the grid has no rotational symmetry — about either axis.
/// This is the generator-power part of the distinctness of the search's
/// 24-orientation enumeration.
pub proof fn lemma_spins_pairwise_distinct(m: PieceModel, i: int, j: int)
    requires
        m.wf(),
        asymmetric(m),
        0 <= i < j <= 3,
    ensures
        rot_z_n(m, i as nat) != rot_z_n(m, j as nat),
        rot_y_n(m, i as nat) != rot_y_n(m, j as nat),
{
    let g = i + 4 - j;
    if rot_z_n(m, i as nat) == rot_z_n(m, j as nat) {
        lemma_rot_z_n_add(m, i as nat, (4 - j) as nat);
        lemma_rot_z_n_add(m, j as nat, (4 - j) as nat);
        lemma_rot_z_order_four(m);
        assert(rot_z_n(m, g as nat) == m);
        assert(face_state(m, 0) == m);
        assert(orientation(m, 0, g) == rot_z_n(m, g as nat));
        assert(orientation(m, 0, g) != m);
        assert(false);
    }
    if rot_y_n(m, i as nat) == rot_y_n(m, j as nat) {
        lemma_rot_y_n_add(m, i as nat, (4 - j) as nat);
        lemma_rot_y_n_add(m, j as nat, (4 - j) as nat);
        lemma_rot_y_order_four(m);
        assert(rot_y_n(m, g as nat) == m);
        assert(face_state(m, 0) == m);
        assert(face_state(m, 1) == m.rot_y());
        assert(face_state(m, 2) == face_state(m, 1).rot_y());
        assert(face_state(m, 3) == face_state(m, 2).rot_y());
        assert(rot_y_n(m, 0) == m);
        assert(rot_y_n(m, 1) == m.rot_y());
        assert(rot_y_n(m, 2) == rot_y_n(m, 1).rot_y());
        assert(rot_y_n(m, 3) == rot_y_n(m, 2).rot_y());
        assert(orientation(m, g, 0) == face_state(m, g as nat));
        assert(orientation(m, g, 0) != m);
        assert(false);
    }
}

/// A positive unit translation fails for a grid occupied at the far face
/// of its axis; a negative unit translation fails for one occupied at the
/// near face.
pub proof fn lemma_translation_bounds_rejected(
    m: PieceModel,
    direction: Direction,
    x: int,
    y: int,
    z: int,
)
    requires
        m.wf(),
        m.in_bounds(x, y, z),
        m.cell(x, y, z) != 0,
    ensures
        axis_coord(x, y, z, direction) == m.size - 1 ==> m.translate(1, direction) is None,
        axis_coord(x, y, z, direction) == 0 ==> m.translate(-1, direction) is None,
{
    if axis_coord(x, y, z, direction) == m.size - 1 {
        assert(m.shift_escapes(1, direction));
    }
    if axis_coord(x, y, z, direction) == 0 {
        assert(m.shift_escapes(-1, direction));
    }
}

/// Two grids both occupied at one cell never compose.
pub proof fn lemma_compose_overlap_rejected(a: PieceModel, b: PieceModel, i: int)
    requires
        0 <= i < a.cells.len(),
        a.cells[i] == 1,
        b.cells[i] == 1,
    ensures
        a.compose(b) is None,
{
    assert(a.overlaps(b));
}

/// Whether no cell is occupied in both grids.
pub open spec fn disjoint_cells(a: PieceModel, b: PieceModel) -> bool {
    forall|i: int|
        0 <= i < a.cells.len() ==> !(#[trigger] a.cells[i] != 0 && b.cells[i] != 0)
}

/// Binary grids of one size compose exactly when their occupied cells are
/// disjoint; the result is then the cell-wise sum, and every cell of it
/// stays at or below 1.
pub proof fn lemma_compose_disjoint(a: PieceModel, b: PieceModel)
    requires
        a.wf(),
        b.wf(),
        a.size == b.size,
        a.binary(),
        b.binary(),
    ensures
        disjoint_cells(a, b) <==> a.compose(b) is Some,
        a.compose(b) matches Some(c) ==> {
            &&& c.cells.len() == a.cells.len()
            &&& forall|i: int|
                0 <= i < c.cells.len() ==> #[trigger] c.cells[i] == a.cells[i] + b.cells[i]
            &&& c.binary()
        },
{
    if disjoint_cells(a, b) {
        assert(!a.overlaps(b));
    }
    if a.compose(b) is Some {
        assert(!a.overlaps(b));
        assert forall|i: int| 0 <= i < a.cells.len() implies !(#[trigger] a.cells[i] != 0
            && b.cells[i] != 0) by {
            assert(a.cells[i] <= 1);
            assert(b.cells[i] <= 1);
        }
        let c = a.compose(b).unwrap();
        assert forall|i: int| 0 <= i < c.cells.len() implies #[trigger] c.cells[i] == a.cells[i]
            + b.cells[i] && c.cells[i] <= 1 by {
            assert(a.cells[i] <= 1);
            assert(b.cells[i] <= 1);
            assert(!(a.cells[i] != 0 && b.cells[i] != 0));
        }
    }
}

/// The set of occupied cell indices of a grid.
pub open spec fn occupied_set(m: PieceModel) -> Set<int> {
    Set::new(|i: int| 0 <= i < m.cells.len() && m.cells[i] != 0)
}

/// The number of occupied cells of a grid.
pub open spec fn occ_count(m: PieceModel) -> nat {
    occupied_set(m).len()
}

pub proof fn lemma_occupied_finite(m: PieceModel)
    ensures
        occupied_set(m).finite(),
        occ_count(m) <= m.cells.len(),
{
    lemma_int_range(0, m.cells.len() as int);
    assert(occupied_set(m).subset_of(set_int_range(0, m.cells.len() as int)));
    lemma_len_subset(occupied_set(m), set_int_range(0, m.cells.len() as int));
}

/// Two grids whose occupied cells correspond one to one under a pair of
/// mutually inverse index maps hold equally many.
proof fn lemma_count_preserved(
    a: PieceModel,
    b: PieceModel,
    fwd: spec_fn(int) -> int,
    bwd: spec_fn(int) -> int,
)
    requires
        forall|i: int|
            0 <= i < b.cells.len() && b.cells[i] != 0 ==> {
                &&& 0 <= #[trigger] fwd(i) < a.cells.len()
                &&& a.cells[fwd(i)] == b.cells[i]
                &&& bwd(fwd(i)) == i
            },
        forall|j: int|
            0 <= j < a.cells.len() && a.cells[j] != 0 ==> {
                &&& 0 <= #[trigger] bwd(j) < b.cells.len()
                &&& b.cells[bwd(j)] == a.cells[j]
                &&& fwd(bwd(j)) == j
            },
    ensures
        occ_count(a) == occ_count(b),
{
    let ob = occupied_set(b);
    let oa = occupied_set(a);
    lemma_occupied_finite(a);
    lemma_occupied_finite(b);
    assert(injective_on(fwd, ob)) by {
        assert forall|x1: int, x2: int|
            ob.contains(x1) && ob.contains(x2) && #[trigger] fwd(x1) == #[trigger] fwd(x2) implies x1
            == x2 by {
            assert(bwd(fwd(x1)) == x1);
            assert(bwd(fwd(x2)) == x2);
        }
    }
    assert forall|j: int| #[trigger] oa.contains(j) implies ob.map(fwd).contains(j) by {
        assert(ob.contains(bwd(j)));
        assert(fwd(bwd(j)) == j);
    }
    assert forall|y: int| #[trigger] ob.map(fwd).contains(y) implies oa.contains(y) by {
        let x = choose|x: int| ob.contains(x) && y == fwd(x);
        assert(0 <= fwd(x) < a.cells.len() && a.cells[fwd(x)] == b.cells[x]);
    }
    assert(ob.map(fwd) =~= oa);
    lemma_map_size(ob, oa, fwd);
}

/// Rotations keep the number of occupied cells: the cells are permuted.
pub proof fn lemma_rot_count(m: PieceModel)
    requires
        m.wf(),
    ensures
        occ_count(m.rot_z()) == occ_count(m),
        occ_count(m.rot_y()) == occ_count(m),
{
    let s = m.size as int;
    let n = m.cells.len() as int;
    if n == 0 {
        assert(occupied_set(m) =~= Set::empty());
        assert(occupied_set(m.rot_z()) =~= Set::empty());
        assert(occupied_set(m.rot_y()) =~= Set::empty());
    } else {
        assert(s >= 1) by (nonlinear_arith)
            requires
                s * s * s > 0,
        ;
        let fz = |i: int| flat_index(s, coord_y(s, i), s - 1 - coord_x(s, i), coord_z(s, i));
        let bz = |j: int| flat_index(s, s - 1 - coord_y(s, j), coord_x(s, j), coord_z(s, j));
        assert forall|i: int| 0 <= i < n && m.rot_z().cells[i] != 0 implies {
            &&& 0 <= #[trigger] fz(i) < n
            &&& m.cells[fz(i)] == m.rot_z().cells[i]
            &&& bz(fz(i)) == i
        } by {
            lemma_coord_decode(s, i);
            let x = coord_x(s, i);
            let y = coord_y(s, i);
            let z = coord_z(s, i);
            lemma_flat_index_bounds(s, y, s - 1 - x, z);
            lemma_flat_index_decode(s, y, s - 1 - x, z);
        }
        assert forall|j: int| 0 <= j < n && m.cells[j] != 0 implies {
            &&& 0 <= #[trigger] bz(j) < n
            &&& m.rot_z().cells[bz(j)] == m.cells[j]
            &&& fz(bz(j)) == j
        } by {
            lemma_coord_decode(s, j);
            let a = coord_x(s, j);
            let b = coord_y(s, j);
            let c = coord_z(s, j);
            lemma_flat_index_bounds(s, s - 1 - b, a, c);
            lemma_flat_index_decode(s, s - 1 - b, a, c);
        }
        lemma_count_preserved(m, m.rot_z(), fz, bz);
        let fy = |i: int| flat_index(s, coord_z(s, i), coord_y(s, i), s - 1 - coord_x(s, i));
        let by_ = |j: int| flat_index(s, s - 1 - coord_z(s, j), coord_y(s, j), coord_x(s, j));
        assert forall|i: int| 0 <= i < n && m.rot_y().cells[i] != 0 implies {
            &&& 0 <= #[trigger] fy(i) < n
            &&& m.cells[fy(i)] == m.rot_y().cells[i]
            &&& by_(fy(i)) == i
        } by {
            lemma_coord_decode(s, i);
            let x = coord_x(s, i);
            let y = coord_y(s, i);
            let z = coord_z(s, i);
            lemma_flat_index_bounds(s, z, y, s - 1 - x);
            lemma_flat_index_decode(s, z, y, s - 1 - x);
        }
        assert forall|j: int| 0 <= j < n && m.cells[j] != 0 implies {
            &&& 0 <= #[trigger] by_(j) < n
            &&& m.rot_y().cells[by_(j)] == m.cells[j]
            &&& fy(by_(j)) == j
        } by {
            lemma_coord_decode(s, j);
            let a = coord_x(s, j);
            let b = coord_y(s, j);
            let c = coord_z(s, j);
            lemma_flat_index_bounds(s, s - 1 - c, b, a);
            lemma_flat_index_decode(s, s - 1 - c, b, a);
        }
        lemma_count_preserved(m, m.rot_y(), fy, by_);
    }
}

/// A successful translation keeps the number of occupied cells: the
/// bounds check lets through exactly the shifts that lose no occupied cell.
pub proof fn lemma_translate_count(m: PieceModel, d: int, direction: Direction)
    requires
        m.wf(),
    ensures
        m.translate(d, direction) matches Some(t) ==> occ_count(t) == occ_count(m),
{
    let s = m.size as int;
    let n = m.cells.len() as int;
    if m.translate(d, direction) is Some {
        let t = m.translate(d, direction).unwrap();
        let dx = if direction is X {
            d
        } else {
            0
        };
        let dy = if direction is Y {
            d
        } else {
            0
        };
        let dz = if direction is Z {
            d
        } else {
            0
        };
        let ft = |i: int|
            flat_index(s, coord_x(s, i) - dx, coord_y(s, i) - dy, coord_z(s, i) - dz);
        let bt = |j: int|
            flat_index(s, coord_x(s, j) + dx, coord_y(s, j) + dy, coord_z(s, j) + dz);
        assert(!m.shift_escapes(d, direction));
        assert forall|i: int| 0 <= i < n && t.cells[i] != 0 implies {
            &&& 0 <= #[trigger] ft(i) < n
            &&& m.cells[ft(i)] == t.cells[i]
            &&& bt(ft(i)) == i
        } by {
            assert(s >= 1) by (nonlinear_arith)
                requires
                    s * s * s > i >= 0,
            ;
            lemma_coord_decode(s, i);
            let sx = coord_x(s, i) - dx;
            let sy = coord_y(s, i) - dy;
            let sz = coord_z(s, i) - dz;
            assert(0 <= sx < s && 0 <= sy < s && 0 <= sz < s);
            lemma_flat_index_bounds(s, sx, sy, sz);
            lemma_flat_index_decode(s, sx, sy, sz);
        }
        assert forall|j: int| 0 <= j < n && m.cells[j] != 0 implies {
            &&& 0 <= #[trigger] bt(j) < n
            &&& t.cells[bt(j)] == m.cells[j]
            &&& ft(bt(j)) == j
        } by {
            assert(s >= 1) by (nonlinear_arith)
                requires
                    s * s * s > j >= 0,
            ;
            lemma_coord_decode(s, j);
            let x = coord_x(s, j);
            let y = coord_y(s, j);
            let z = coord_z(s, j);
            assert(m.cell(x, y, z) != 0);
            assert(0 <= axis_coord(x, y, z, direction) + d < s);
            lemma_flat_index_bounds(s, x + dx, y + dy, z + dz);
            lemma_flat_index_decode(s, x + dx, y + dy, z + dz);
        }
        lemma_count_preserved(m, t, ft, bt);
    }
}

/// A successful composition of binary grids holds the occupied cells of
/// both inputs, and their counts add: the inputs were disjoint.
pub proof fn lemma_compose_count(a: PieceModel, b: PieceModel)
    requires
        a.wf(),
        b.wf(),
        a.size == b.size,
        a.binary(),
        b.binary(),
    ensures
        a.compose(b) matches Some(c) ==> occ_count(c) == occ_count(a) + occ_count(b),
{
    if a.compose(b) is Some {
        let c = a.compose(b).unwrap();
        let oa = occupied_set(a);
        let ob = occupied_set(b);
        lemma_occupied_finite(a);
        lemma_occupied_finite(b);
        assert(!a.overlaps(b));
        assert forall|i: int| 0 <= i < a.cells.len() implies !(#[trigger] a.cells[i] != 0
            && b.cells[i] != 0) by {
            assert(a.cells[i] <= 1);
            assert(b.cells[i] <= 1);
        }
        assert(oa.disjoint(ob));
        assert forall|i: int| #[trigger] occupied_set(c).contains(i) implies (oa + ob).contains(
            i,
        ) by {
            assert(c.cells[i] == (a.cells[i] + b.cells[i]) as u8);
            assert(a.cells[i] + b.cells[i] <= 2);
        }
        assert forall|i: int| #[trigger] (oa + ob).contains(i) implies occupied_set(c).contains(
            i,
        ) by {
            assert(c.cells[i] == (a.cells[i] + b.cells[i]) as u8);
            assert(a.cells[i] + b.cells[i] <= 2);
        }
        assert(occupied_set(c) =~= oa + ob);
        lemma_set_disjoint_lens(oa, ob);
    }
}

/// `n` z spins keep well-formedness, binary cells, size and count.
proof fn lemma_rot_z_n_count(m: PieceModel, n: nat)
    requires
        m.wf(),
        m.binary(),
    ensures
        rot_z_n(m, n).wf(),
        rot_z_n(m, n).binary(),
        rot_z_n(m, n).size == m.size,
        occ_count(rot_z_n(m, n)) == occ_count(m),
    decreases n,
{
    if n > 0 {
        lemma_rot_z_n_count(m, (n - 1) as nat);
        lemma_rot_props(rot_z_n(m, (n - 1) as nat));
        lemma_rot_count(rot_z_n(m, (n - 1) as nat));
    }
}

/// The six-face walk keeps well-formedness, binary cells, size and count.
proof fn lemma_face_state_count(m: PieceModel, f: nat)
    requires
        m.wf(),
        m.binary(),
    ensures
        face_state(m, f).wf(),
        face_state(m, f).binary(),
        face_state(m, f).size == m.size,
        occ_count(face_state(m, f)) == occ_count(m),
    decreases f,
{
    if f > 0 {
        lemma_face_state_count(m, (f - 1) as nat);
        let prev = face_state(m, (f - 1) as nat);
        lemma_rot_props(prev);
        lemma_rot_count(prev);
        lemma_rot_props(prev.rot_y());
        lemma_rot_count(prev.rot_y());
        lemma_rot_props(prev.rot_y().rot_z());
        lemma_rot_count(prev.rot_y().rot_z());
    }
}

/// Every orientation of the enumeration keeps well-formedness, binary
/// cells, size and occupied count.
pub proof fn lemma_orientation_count(m: PieceModel, f: int, sp: int)
    requires
        m.wf(),
        m.binary(),
        0 <= f,
        0 <= sp,
    ensures
        orientation(m, f, sp).wf(),
        orientation(m, f, sp).binary(),
        orientation(m, f, sp).size == m.size,
        occ_count(orientation(m, f, sp)) == occ_count(m),
{
    lemma_face_state_count(m, f as nat);
    lemma_rot_z_n_count(face_state(m, f as nat), sp as nat);
}

/// A search shift step keeps well-formedness, binary cells, size and
/// occupied count.
proof fn lemma_shift_count(m: PieceModel, t: int, direction: Direction)
    requires
        m.wf(),
        m.binary(),
    ensures
        shift_step(m, t, direction) matches Some(r) ==> {
            &&& r.wf()
            &&& r.binary()
            &&& r.size == m.size
            &&& occ_count(r) == occ_count(m)
        },
{
    lemma_translate_props(m, t, direction);
    lemma_translate_count(m, t, direction);
}

/// The total number of occupied cells of the pieces from `k` on.
pub open spec fn total_count(rest: Seq<PieceModel>, k: int) -> nat
    decreases rest.len() - k,
{
    if k < 0 || k >= rest.len() {
        0
    } else {
        occ_count(rest[k]) + total_count(rest, k + 1)
    }
}

/// Pieces that together carry more occupied cells than the volume holds
/// can never all be placed: every placement keeps its piece's occupied
/// count, composition adds counts, and a packing with no doubly-claimed
/// cell holds at most `size^3` occupied cells.
pub proof fn lemma_overfull_unsolvable(cur: PieceModel, rest: Seq<PieceModel>, k: int)
    requires
        search_inputs_ok(cur, rest),
        0 <= k <= rest.len(),
        occ_count(cur) + total_count(rest, k) > cur.size * cur.size * cur.size,
    ensures
        !solvable_from(cur, rest, k),
    decreases rest.len() - k,
{
    lemma_occupied_finite(cur);
    if k >= rest.len() {
        assert(total_count(rest, k) == 0);
        assert(false);
    } else if solvable_from(cur, rest, k) {
        let (f, sp, tx, ty, tz) = choose|f: int, sp: int, tx: int, ty: int, tz: int|
            #![trigger placed(rest[k], f, sp, tx, ty, tz)]
            {
                &&& 0 <= f < 6
                &&& 0 <= sp < 4
                &&& offset_in_range(tx, rest[k].size as int)
                &&& offset_in_range(ty, rest[k].size as int)
                &&& offset_in_range(tz, rest[k].size as int)
                &&& branch_succeeds(cur, rest, k, f, sp, tx, ty, tz)
            };
        let piece = rest[k];
        let o = orientation(piece, f, sp);
        lemma_orientation_count(piece, f, sp);
        let a = shift_step(o, tx, Direction::X).unwrap();
        lemma_shift_count(o, tx, Direction::X);
        let b = shift_step(a, ty, Direction::Y).unwrap();
        lemma_shift_count(a, ty, Direction::Y);
        let c = shift_step(b, tz, Direction::Z).unwrap();
        lemma_shift_count(b, tz, Direction::Z);
        assert(placed(piece, f, sp, tx, ty, tz) == Some(c));
        assert(occ_count(c) == occ_count(piece));
        let next = cur.compose(c).unwrap();
        lemma_compose_props(cur, c);
        lemma_compose_count(cur, c);
        assert(occ_count(next) == occ_count(cur) + occ_count(piece));
        assert(total_count(rest, k) == occ_count(piece) + total_count(rest, k + 1));
        assert(search_inputs_ok(next, rest));
        lemma_overfull_unsolvable(next, rest, k + 1);
        assert(!solvable_from(next, rest, k + 1));
        assert(false);
    }
}

} // verus!
