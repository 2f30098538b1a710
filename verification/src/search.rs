//! Exhaustive backtracking search over piece placements.
//!
//! The solver places the remaining pieces in order. For each piece it
//! tries every orientation — six face orientations crossed with four z
//! spins — and, for each, every in-range offset along x, then y, then z;
//! each candidate that composes without overlap onto the partial packing
//! is followed by a recursive attempt at the rest. The result is exactly
//! whether some such sequence of placements exists.

use crate::piece::{
    face_state, lemma_compose_props, lemma_edge_fits, lemma_rot_props, lemma_rot_z_order_four,
    lemma_translate_props, opt_model, orientation, Direction, Piece, PieceModel,
};
use vstd::prelude::*;

verus! {

/// One translation step of the search: offset 0 leaves the grid alone,
/// any other offset is a bounds-checked translation.
pub open spec fn shift_step(m: PieceModel, t: int, direction: Direction) -> Option<PieceModel> {
    if t == 0 {
        Some(m)
    } else {
        m.translate(t, direction)
    }
}

/// The candidate grid at orientation `(f, sp)` and offsets
/// `(tx, ty, tz)`: the oriented piece shifted along x, then y, then z.
/// Absent when some nonzero shift is rejected.
pub open spec fn placed(
    m: PieceModel,
    f: int,
    sp: int,
    tx: int,
    ty: int,
    tz: int,
) -> Option<PieceModel> {
    match shift_step(orientation(m, f, sp), tx, Direction::X) {
        None => None,
        Some(a) => match shift_step(a, ty, Direction::Y) {
            None => None,
            Some(b) => shift_step(b, tz, Direction::Z),
        },
    }
}

/// Whether offset `t` lies in the searched range for edge length `s`:
/// every integer of magnitude below `s`.
pub open spec fn offset_in_range(t: int, s: int) -> bool {
    -s < t < s
}

/// Whether the branch at `(f, sp, tx, ty, tz)` succeeds: the candidate
/// exists, composes onto `cur` without overlap, and the remaining pieces
/// can then all be placed.
pub open spec fn branch_succeeds(
    cur: PieceModel,
    rest: Seq<PieceModel>,
    k: int,
    f: int,
    sp: int,
    tx: int,
    ty: int,
    tz: int,
) -> bool
    decreases rest.len() - k, 0int,
{
    &&& 0 <= k < rest.len()
    &&& placed(rest[k], f, sp, tx, ty, tz) matches Some(c) && (cur.compose(c) matches Some(next)
        && solvable_from(next, rest, k + 1))
}

/// Whether the search, holding partial packing `cur`, can place the
/// pieces `rest[k..]` in order.
pub open spec fn solvable_from(cur: PieceModel, rest: Seq<PieceModel>, k: int) -> bool
    decreases rest.len() - k, 1int,
{
    k >= rest.len() || (exists|f: int, sp: int, tx: int, ty: int, tz: int|
        #![trigger placed(rest[k], f, sp, tx, ty, tz)]
        {
            &&& 0 <= f < 6
            &&& 0 <= sp < 4
            &&& offset_in_range(tx, rest[k].size as int)
            &&& offset_in_range(ty, rest[k].size as int)
            &&& offset_in_range(tz, rest[k].size as int)
            &&& branch_succeeds(cur, rest, k, f, sp, tx, ty, tz)
        })
}

/// Whether, at `(f, sp, tx, ty, tz)`, the head of `ps` is the placed form
/// of `rest[k]`, composes onto `cur`, and the rest of `ps` carries on.
pub open spec fn placement_branch(
    cur: PieceModel,
    rest: Seq<PieceModel>,
    k: int,
    f: int,
    sp: int,
    tx: int,
    ty: int,
    tz: int,
    ps: Seq<PieceModel>,
) -> bool
    decreases rest.len() - k, 0int,
{
    &&& 0 <= k < rest.len()
    &&& ps.len() == rest.len() - k
    &&& placed(rest[k], f, sp, tx, ty, tz) == Some(ps[0])
    &&& (cur.compose(ps[0]) matches Some(next) && placements_ok(next, rest, k + 1, ps.skip(1)))
}

/// Whether `ps` lists, in order, one placed form of each of the pieces
/// `rest[k..]` — each a searched orientation and offset of its piece —
/// such that composing them one after the other onto `cur` never
/// overlaps.
pub open spec fn placements_ok(
    cur: PieceModel,
    rest: Seq<PieceModel>,
    k: int,
    ps: Seq<PieceModel>,
) -> bool
    decreases rest.len() - k, 1int,
{
    if k >= rest.len() {
        ps.len() == 0
    } else {
        exists|f: int, sp: int, tx: int, ty: int, tz: int|
            #![trigger placed(rest[k], f, sp, tx, ty, tz)]
            {
                &&& 0 <= f < 6
                &&& 0 <= sp < 4
                &&& offset_in_range(tx, rest[k].size as int)
                &&& offset_in_range(ty, rest[k].size as int)
                &&& offset_in_range(tz, rest[k].size as int)
                &&& placement_branch(cur, rest, k, f, sp, tx, ty, tz, ps)
            }
    }
}

/// A successful branch with its placements witnesses `placements_ok`.
proof fn lemma_placements_intro(
    cur: PieceModel,
    rest: Seq<PieceModel>,
    k: int,
    f: int,
    sp: int,
    tx: int,
    ty: int,
    tz: int,
    ps: Seq<PieceModel>,
)
    requires
        0 <= k < rest.len(),
        0 <= f < 6,
        0 <= sp < 4,
        offset_in_range(tx, rest[k].size as int),
        offset_in_range(ty, rest[k].size as int),
        offset_in_range(tz, rest[k].size as int),
        placement_branch(cur, rest, k, f, sp, tx, ty, tz, ps),
    ensures
        placements_ok(cur, rest, k, ps),
{
}

/// The models of a sequence of grids.
pub open spec fn models(s: Seq<Piece>) -> Seq<PieceModel> {
    Seq::new(s.len(), |i: int| s[i]@)
}

/// The shape of the search's inputs: a well-formed binary partial packing
/// and well-formed binary pieces, all of one edge length.
pub open spec fn search_inputs_ok(cur: PieceModel, rest: Seq<PieceModel>) -> bool {
    &&& cur.wf()
    &&& cur.binary()
    &&& forall|i: int|
        0 <= i < rest.len() ==> {
            &&& (#[trigger] rest[i]).wf()
            &&& rest[i].binary()
            &&& rest[i].size == cur.size
        }
}

/// A successful branch witnesses solvability.
proof fn lemma_solvable_intro(
    cur: PieceModel,
    rest: Seq<PieceModel>,
    k: int,
    f: int,
    sp: int,
    tx: int,
    ty: int,
    tz: int,
)
    requires
        0 <= k < rest.len(),
        0 <= f < 6,
        0 <= sp < 4,
        offset_in_range(tx, rest[k].size as int),
        offset_in_range(ty, rest[k].size as int),
        offset_in_range(tz, rest[k].size as int),
        branch_succeeds(cur, rest, k, f, sp, tx, ty, tz),
    ensures
        solvable_from(cur, rest, k),
{
}

/// When every branch fails, the pieces cannot be placed.
proof fn lemma_solvable_elim(cur: PieceModel, rest: Seq<PieceModel>, k: int)
    requires
        0 <= k < rest.len(),
        forall|f: int, sp: int, tx: int, ty: int, tz: int|
            #![trigger placed(rest[k], f, sp, tx, ty, tz)]
            0 <= f < 6 && 0 <= sp < 4 && offset_in_range(tx, rest[k].size as int)
                && offset_in_range(ty, rest[k].size as int) && offset_in_range(
                tz,
                rest[k].size as int,
            ) ==> !branch_succeeds(cur, rest, k, f, sp, tx, ty, tz),
    ensures
        !solvable_from(cur, rest, k),
{
}

/// Exhaustive backtracking: reports whether the pieces of `rest`, taken
/// in order, can all be placed onto `current` — each in some orientation
/// and offset, composed without overlap.
pub fn compose_all(current: &Piece, rest: &[Piece]) -> (r: bool)
    requires
        search_inputs_ok(current@, models(rest@)),
    ensures
        r == solvable_from(current@, models(rest@), 0),
{
    let found = solve_from(current, rest, 0);
    found.is_some()
}

/// The search, reporting the solution it found: on success, the `i`th
/// entry of the result is the placed form of `rest[i]` — the piece in the
/// orientation and position the packing uses — and composing the entries
/// in order onto `current` succeeds without overlap.
pub fn compose_all_placements(current: &Piece, rest: &[Piece]) -> (r: Option<Vec<Piece>>)
    requires
        search_inputs_ok(current@, models(rest@)),
    ensures
        (r is Some) == solvable_from(current@, models(rest@), 0),
        r matches Some(v) ==> {
            &&& v@.len() == rest@.len()
            &&& placements_ok(current@, models(rest@), 0, models(v@))
        },
{
    solve_from(current, rest, 0)
}

/// One level of the search: places `rest[k]` and recurses on the rest.
#[verifier::loop_isolation(false)]
#[verifier::rlimit(100)]
fn solve_from(current: &Piece, rest: &[Piece], k: usize) -> (r: Option<Vec<Piece>>)
    requires
        search_inputs_ok(current@, models(rest@)),
        k <= rest@.len(),
    ensures
        (r is Some) == solvable_from(current@, models(rest@), k as int),
        r matches Some(v) ==> {
            &&& v@.len() == rest@.len() - k
            &&& placements_ok(current@, models(rest@), k as int, models(v@))
        },
    decreases rest@.len() - k,
{
    let ghost rms = models(rest@);
    let n = rest.len();
    if k >= n {
        let done: Vec<Piece> = Vec::new();
        proof {
            assert(models(done@).len() == 0);
        }
        return Some(done);
    }
    let base = &rest[k];
    let mut piece = base.clone();
    let s = piece.size();
    let ghost base_m = rms[k as int];
    proof {
        assert(base_m == piece@);
    }
    if s == 0 {
        proof {
            assert(!solvable_from(current@, rms, k as int));
        }
        return None;
    }
    let ncells = piece.num_cells();
    proof {
        // The cell count sits in a machine word, so the edge length is far
        // below `isize::MAX` and the offset range fits `isize`.
        assert(piece@.cells.len() == ncells);
        lemma_edge_fits(piece@);
    }
    let hi: isize = (s - 1) as isize;
    let mut f: usize = 0;
    while f < 6
        invariant
            f <= 6,
            f < 6 ==> piece@ == face_state(base_m, f as nat),
            piece@.wf(),
            piece@.binary(),
            piece@.size == s,
            forall|f2: int, sp2: int, a2: int, b2: int, c2: int|
                #![trigger placed(rms[k as int], f2, sp2, a2, b2, c2)]
                0 <= f2 < f && 0 <= sp2 < 4 && offset_in_range(a2, s as int) && offset_in_range(
                    b2,
                    s as int,
                ) && offset_in_range(c2, s as int) ==> !branch_succeeds(
                    current@,
                    rms,
                    k as int,
                    f2,
                    sp2,
                    a2,
                    b2,
                    c2,
                ),
        decreases 6 - f,
    {
        proof {
            assert(face_state(base_m, f as nat).wf());
        }
        let mut sp: usize = 0;
        while sp < 4
            invariant
                sp <= 4,
                piece@ == orientation(base_m, f as int, sp as int),
                piece@.wf(),
                piece@.binary(),
                piece@.size == s,
                forall|sp2: int, a2: int, b2: int, c2: int|
                    #![trigger placed(rms[k as int], f as int, sp2, a2, b2, c2)]
                    0 <= sp2 < sp && offset_in_range(a2, s as int) && offset_in_range(b2, s as int)
                        && offset_in_range(c2, s as int) ==> !branch_succeeds(
                        current@,
                        rms,
                        k as int,
                        f as int,
                        sp2,
                        a2,
                        b2,
                        c2,
                    ),
            decreases 4 - sp,
        {
            let ghost om = piece@;
            let mut tx: isize = -hi;
            while tx <= hi
                invariant
                    -hi <= tx <= hi + 1,
                    forall|a2: int, b2: int, c2: int|
                        #![trigger placed(rms[k as int], f as int, sp as int, a2, b2, c2)]
                        -(s as int) < a2 < tx && offset_in_range(b2, s as int) && offset_in_range(
                            c2,
                            s as int,
                        ) ==> !branch_succeeds(
                            current@,
                            rms,
                            k as int,
                            f as int,
                            sp as int,
                            a2,
                            b2,
                            c2,
                        ),
                decreases hi + 1 - tx,
            {
                let sxo: Option<Piece> = if tx == 0 {
                    Some(piece.clone())
                } else {
                    piece.translation(tx, Direction::X)
                };
                proof {
                    assert(opt_model(sxo) == shift_step(om, tx as int, Direction::X));
                    lemma_translate_props(om, tx as int, Direction::X);
                }
                match sxo {
                    None => {
                        proof {
                            assert forall|b2: int, c2: int|
                                #![trigger placed(rms[k as int], f as int, sp as int, tx as int, b2, c2)]
                                offset_in_range(b2, s as int) && offset_in_range(
                                    c2,
                                    s as int,
                                ) implies !branch_succeeds(
                                current@,
                                rms,
                                k as int,
                                f as int,
                                sp as int,
                                tx as int,
                                b2,
                                c2,
                            ) by {
                                assert(placed(base_m, f as int, sp as int, tx as int, b2, c2)
                                    is None);
                            }
                        }
                    },
                    Some(px) => {
                        let ghost am = px@;
                        let mut ty: isize = -hi;
                        while ty <= hi
                            invariant
                                -hi <= ty <= hi + 1,
                                forall|b2: int, c2: int|
                                    #![trigger placed(rms[k as int], f as int, sp as int, tx as int, b2, c2)]
                                    -(s as int) < b2 < ty && offset_in_range(c2, s as int)
                                        ==> !branch_succeeds(
                                        current@,
                                        rms,
                                        k as int,
                                        f as int,
                                        sp as int,
                                        tx as int,
                                        b2,
                                        c2,
                                    ),
                            decreases hi + 1 - ty,
                        {
                            let syo: Option<Piece> = if ty == 0 {
                                Some(px.clone())
                            } else {
                                px.translation(ty, Direction::Y)
                            };
                            proof {
                                assert(opt_model(syo) == shift_step(am, ty as int, Direction::Y));
                                lemma_translate_props(am, ty as int, Direction::Y);
                            }
                            match syo {
                                None => {
                                    proof {
                                        assert forall|c2: int|
                                            #![trigger placed(rms[k as int], f as int, sp as int, tx as int, ty as int, c2)]
                                            offset_in_range(c2, s as int) implies !branch_succeeds(
                                            current@,
                                            rms,
                                            k as int,
                                            f as int,
                                            sp as int,
                                            tx as int,
                                            ty as int,
                                            c2,
                                        ) by {
                                            assert(placed(
                                                base_m,
                                                f as int,
                                                sp as int,
                                                tx as int,
                                                ty as int,
                                                c2,
                                            ) is None);
                                        }
                                    }
                                },
                                Some(py) => {
                                    let ghost bm = py@;
                                    let mut tz: isize = -hi;
                                    while tz <= hi
                                        invariant
                                            -hi <= tz <= hi + 1,
                                            forall|c2: int|
                                                #![trigger placed(rms[k as int], f as int, sp as int, tx as int, ty as int, c2)]
                                                -(s as int) < c2 < tz ==> !branch_succeeds(
                                                    current@,
                                                    rms,
                                                    k as int,
                                                    f as int,
                                                    sp as int,
                                                    tx as int,
                                                    ty as int,
                                                    c2,
                                                ),
                                        decreases hi + 1 - tz,
                                    {
                                        let szo: Option<Piece> = if tz == 0 {
                                            Some(py.clone())
                                        } else {
                                            py.translation(tz, Direction::Z)
                                        };
                                        proof {
                                            assert(opt_model(szo) == shift_step(
                                                bm,
                                                tz as int,
                                                Direction::Z,
                                            ));
                                            lemma_translate_props(bm, tz as int, Direction::Z);
                                        }
                                        match szo {
                                            None => {
                                                proof {
                                                    assert(placed(
                                                        base_m,
                                                        f as int,
                                                        sp as int,
                                                        tx as int,
                                                        ty as int,
                                                        tz as int,
                                                    ) is None);
                                                }
                                            },
                                            Some(pz) => {
                                                proof {
                                                    assert(placed(
                                                        base_m,
                                                        f as int,
                                                        sp as int,
                                                        tx as int,
                                                        ty as int,
                                                        tz as int,
                                                    ) == Some(pz@));
                                                    assert forall|i: int|
                                                        0 <= i < current@.cells.len()
                                                            implies current@.cells[i]
                                                            + #[trigger] pz@.cells[i] <= 255 by {
                                                        assert(current@.cells[i] <= 1);
                                                        assert(pz@.cells[i] <= 1);
                                                    }
                                                }
                                                let composed = current.append(&pz);
                                                match composed {
                                                    Some(next) => {
                                                        proof {
                                                            lemma_compose_props(current@, pz@);
                                                            assert(search_inputs_ok(next@, rms));
                                                        }
                                                        let sub = solve_from(&next, rest, k + 1);
                                                        if let Some(mut v) = sub {
                                                            proof {
                                                                assert(branch_succeeds(
                                                                    current@,
                                                                    rms,
                                                                    k as int,
                                                                    f as int,
                                                                    sp as int,
                                                                    tx as int,
                                                                    ty as int,
                                                                    tz as int,
                                                                ));
                                                                lemma_solvable_intro(
                                                                    current@,
                                                                    rms,
                                                                    k as int,
                                                                    f as int,
                                                                    sp as int,
                                                                    tx as int,
                                                                    ty as int,
                                                                    tz as int,
                                                                );
                                                            }
                                                            let ghost pzv = pz;
                                                            let ghost oldv = v@;
                                                            v.insert(0, pz);
                                                            proof {
                                                                assert(v@ == oldv.insert(
                                                                    0,
                                                                    pzv,
                                                                ));
                                                                oldv.insert_ensures(0, pzv);
                                                                assert(models(v@).len()
                                                                    == oldv.len() + 1);
                                                                assert(models(v@)[0] == pzv@);
                                                                assert(models(v@).skip(1)
                                                                    =~= models(oldv));
                                                                assert(placement_branch(
                                                                    current@,
                                                                    rms,
                                                                    k as int,
                                                                    f as int,
                                                                    sp as int,
                                                                    tx as int,
                                                                    ty as int,
                                                                    tz as int,
                                                                    models(v@),
                                                                ));
                                                                lemma_placements_intro(
                                                                    current@,
                                                                    rms,
                                                                    k as int,
                                                                    f as int,
                                                                    sp as int,
                                                                    tx as int,
                                                                    ty as int,
                                                                    tz as int,
                                                                    models(v@),
                                                                );
                                                            }
                                                            return Some(v);
                                                        }
                                                    },
                                                    None => {
                                                        proof {
                                                            assert(current@.compose(pz@) is None);
                                                        }
                                                    },
                                                }
                                            },
                                        }
                                        tz = tz + 1;
                                    }
                                },
                            }
                            ty = ty + 1;
                        }
                    },
                }
                tx = tx + 1;
            }
            proof {
                lemma_rot_props(om);
            }
            piece = piece.z_rotation();
            sp = sp + 1;
        }
        proof {
            lemma_rot_z_order_four(face_state(base_m, f as nat));
            assert(piece@ == face_state(base_m, f as nat));
        }
        if f < 3 {
            piece = piece.y_rotation();
        } else if f == 3 {
            piece = piece.y_rotation();
            piece = piece.z_rotation();
            piece = piece.y_rotation();
        } else if f == 4 {
            piece = piece.y_rotation();
            piece = piece.y_rotation();
        }
        proof {
            lemma_rot_props(face_state(base_m, f as nat));
            lemma_rot_props(face_state(base_m, f as nat).rot_y());
            lemma_rot_props(face_state(base_m, f as nat).rot_y().rot_z());
        }
        f = f + 1;
    }
    proof {
        assert(rms[k as int].size == s);
        assert forall|f2: int, sp2: int, a2: int, b2: int, c2: int|
            #![trigger placed(rms[k as int], f2, sp2, a2, b2, c2)]
            0 <= f2 < 6 && 0 <= sp2 < 4 && offset_in_range(a2, s as int) && offset_in_range(
                b2,
                s as int,
            ) && offset_in_range(c2, s as int) implies !branch_succeeds(
            current@,
            rms,
            k as int,
            f2,
            sp2,
            a2,
            b2,
            c2,
        ) by {}
        lemma_solvable_elim(current@, rms, k as int);
    }
    None
}

} // verus!
