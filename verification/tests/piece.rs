use polycube::piece::{Direction, Piece};

#[test]
fn rotation() {
    let p = Piece::new(3, &[0, 1, 1, 1, 1, 0, 1, 0, 0]).unwrap();
    let mut rp = p.clone();
    for i in 0..4 {
        if i != 0 {
            assert_ne!(p, rp)
        }
        println!("{:?}", rp);
        rp = rp.y_rotation();
    }
    assert_eq!(p, rp);

    for i in 0..4 {
        if i != 0 {
            assert_ne!(p, rp)
        }
        rp = rp.z_rotation();
    }
    assert_eq!(p, rp);

    rp = rp.translation(1, Direction::Z).unwrap();
    let p = rp.clone();
    for i in 0..4 {
        if i != 0 {
            assert_ne!(p, rp)
        }
        rp = rp.y_rotation();
    }
    assert_eq!(p, rp);
}

#[test]
fn translation() {
    let p = Piece::new(3, &[1, 1, 1, 1, 0, 0, 1, 0, 0]).unwrap();

    for i in -2..=2 {
        assert_eq!(p.translation(i, Direction::X), None);
        assert_eq!(p.translation(i, Direction::Y), None);
    }

    for i in -2..=0 {
        assert_eq!(p.translation(i, Direction::Z), None);
    }

    assert_eq!(
        p.translation(1, Direction::Z),
        Piece::new(3, &[0, 0, 0, 0, 0, 0, 0, 0, 0, 1, 1, 1, 1, 0, 0, 1, 0, 0])
    );
}

#[test]
fn construction_pads_and_rejects_overlong_lists() {
    assert_eq!(Piece::new(3, &[0u8; 28]), None);
    assert!(Piece::new(3, &[0u8; 27]).is_some());
    let p = Piece::new(2, &[1, 0, 0, 1]).unwrap();
    assert_eq!(p.size(), 2);
    assert_eq!(p.num_cells(), 8);
    assert_eq!(p.cell_at(0, 0, 0), 1);
    assert_eq!(p.cell_at(1, 0, 0), 0);
    assert_eq!(p.cell_at(1, 1, 0), 1);
    assert_eq!(p.cell_at(1, 1, 1), 0);
}

#[test]
fn indexing_follows_the_x_fastest_convention() {
    assert_eq!(Piece::index_with_size(3, 2, 1, 0), 5);
    assert_eq!(Piece::index_with_size(3, 0, 0, 2), 18);
    let p = Piece::new(3, &[]).unwrap();
    assert_eq!(p.index(1, 2, 1), 16);
}

#[test]
fn translation_rejects_zero_and_oversized_offsets() {
    let p = Piece::new(3, &[0, 1, 0, 0, 0, 0, 0, 0, 0, 0, 1, 0]).unwrap();
    assert_eq!(p.translation(0, Direction::X), None);
    assert_eq!(p.translation(3, Direction::X), None);
    assert_eq!(p.translation(-3, Direction::Y), None);
    assert!(p.translation(1, Direction::X).is_some());
}

#[test]
fn translation_rejects_shifts_off_either_face() {
    let far = Piece::new(3, &[0, 0, 1]).unwrap();
    assert_eq!(far.translation(1, Direction::X), None);
    let near = Piece::new(3, &[1]).unwrap();
    assert_eq!(near.translation(-1, Direction::X), None);
    assert_eq!(near.translation(-1, Direction::Y), None);
    assert_eq!(near.translation(-1, Direction::Z), None);
}

#[test]
fn append_rejects_overlap_and_sums_disjoint_cells() {
    let a = Piece::new(3, &[1, 0, 0]).unwrap();
    let b = Piece::new(3, &[1, 0, 0]).unwrap();
    assert_eq!(a.append(&b), None);
    let c = Piece::new(3, &[0, 1, 1]).unwrap();
    assert_eq!(a.append(&c), Piece::new(3, &[1, 1, 1]));
    let d = Piece::new(3, &[0, 0, 0, 1]).unwrap();
    assert_eq!(a.append(&d), Piece::new(3, &[1, 0, 0, 1]));
}

#[test]
fn rotations_have_order_four_on_an_asymmetric_grid() {
    let p = Piece::new(3, &[1, 1, 1, 1, 0, 0, 0, 0, 0, 1]).unwrap();
    let z1 = p.z_rotation();
    let z2 = z1.z_rotation();
    let z3 = z2.z_rotation();
    let z4 = z3.z_rotation();
    assert_ne!(p, z1);
    assert_ne!(p, z2);
    assert_ne!(p, z3);
    assert_eq!(p, z4);
    let y1 = p.y_rotation();
    let y2 = y1.y_rotation();
    let y3 = y2.y_rotation();
    let y4 = y3.y_rotation();
    assert_ne!(p, y1);
    assert_ne!(p, y2);
    assert_ne!(p, y3);
    assert_eq!(p, y4);
}

#[test]
fn rotation_moves_the_expected_cell() {
    // A single cell at (2, 0, 0): a z turn sends the value of (y, 2-x, z)
    // to (x, y, z), so the occupied cell lands at (2, 2, 0).
    let p = Piece::new(3, &[0, 0, 1]).unwrap();
    let r = p.z_rotation();
    assert_eq!(r.cell_at(2, 2, 0), 1);
    let mut occupied = 0;
    for z in 0..3 {
        for y in 0..3 {
            for x in 0..3 {
                occupied += u32::from(r.cell_at(x, y, z));
            }
        }
    }
    assert_eq!(occupied, 1);
}
