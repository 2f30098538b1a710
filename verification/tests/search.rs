use polycube::piece::Piece;
use polycube::search::{compose_all, compose_all_placements};

fn piece(cells: &[u8]) -> Piece {
    Piece::new(3, cells).unwrap()
}

#[test]
fn solves_the_six_piece_cube() {
    let pieces = vec![
        piece(&[0, 1, 1, 1, 1, 0, 1, 0, 0]),
        piece(&[1, 1, 1, 1, 0, 0, 1, 0, 0]),
        piece(&[1, 0, 0, 1, 1, 1, 1, 0, 0]),
        piece(&[1, 1, 0, 1, 1, 0, 1, 0, 0]),
        piece(&[0, 1, 0, 1, 1, 0, 1, 0, 0]),
        piece(&[0, 1, 0, 1, 1, 0, 0, 0, 0]),
    ];
    let empty = piece(&[]);
    assert!(compose_all(&empty, &pieces));
}

#[test]
fn placements_compose_to_a_full_cube() {
    let pieces = vec![
        piece(&[0, 1, 1, 1, 1, 0, 1, 0, 0]),
        piece(&[1, 1, 1, 1, 0, 0, 1, 0, 0]),
        piece(&[1, 0, 0, 1, 1, 1, 1, 0, 0]),
        piece(&[1, 1, 0, 1, 1, 0, 1, 0, 0]),
        piece(&[0, 1, 0, 1, 1, 0, 1, 0, 0]),
        piece(&[0, 1, 0, 1, 1, 0, 0, 0, 0]),
    ];
    let empty = piece(&[]);
    let placements = compose_all_placements(&empty, &pieces).unwrap();
    assert_eq!(placements.len(), 6);
    let mut acc = empty;
    for p in &placements {
        acc = acc.append(p).unwrap();
    }
    for z in 0..3 {
        for y in 0..3 {
            for x in 0..3 {
                assert_eq!(acc.cell_at(x, y, z), 1);
            }
        }
    }
}

#[test]
fn no_placements_for_an_unsolvable_set() {
    let full = piece(&[1; 27]);
    let one = piece(&[1]);
    let empty = piece(&[]);
    assert_eq!(compose_all_placements(&empty, &[full, one]), None);
}

#[test]
fn empty_piece_list_is_already_solved() {
    let empty = piece(&[]);
    assert!(compose_all(&empty, &[]));
}

#[test]
fn no_solution_when_counts_exceed_the_volume() {
    // 27 + 1 occupied cells can never pack 27 cells without overlap.
    let full = piece(&[1; 27]);
    let one = piece(&[1]);
    let empty = piece(&[]);
    assert!(!compose_all(&empty, &[full, one]));
}

#[test]
fn single_piece_places_anywhere_it_fits() {
    let empty = piece(&[]);
    let bar = piece(&[1, 1, 1]);
    assert!(compose_all(&empty, &[bar]));
    // A piece that overlaps the partial packing everywhere cannot go in.
    let full = piece(&[1; 27]);
    let one = piece(&[1]);
    assert!(!compose_all(&full, &[one]));
}

#[test]
fn solves_a_two_layer_cube_of_edge_two() {
    // The edge length is a parameter of every operation: two flat 2x2
    // layers pack a 2x2x2 volume.
    let layer = Piece::new(2, &[1, 1, 1, 1]).unwrap();
    let empty = Piece::new(2, &[]).unwrap();
    assert!(compose_all(&empty, &[layer.clone(), layer]));
}

#[test]
fn enumeration_yields_24_distinct_orientations() {
    // The same generator walk the search uses: six face orientations,
    // each spun four times about z. On a grid with no rotational
    // symmetry all 24 results differ pairwise.
    let p = piece(&[0, 1, 1, 1, 1, 0, 1, 0, 0]);
    let mut seen: Vec<Piece> = Vec::new();
    let mut q = p.clone();
    for f in 0..6 {
        for _sp in 0..4 {
            seen.push(q.clone());
            q = q.z_rotation();
        }
        if f < 3 {
            q = q.y_rotation();
        } else if f == 3 {
            q = q.y_rotation().z_rotation().y_rotation();
        } else if f == 4 {
            q = q.y_rotation().y_rotation();
        }
    }
    assert_eq!(seen.len(), 24);
    for i in 0..24 {
        for j in (i + 1)..24 {
            assert_ne!(seen[i], seen[j]);
        }
    }
}
