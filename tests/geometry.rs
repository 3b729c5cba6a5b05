use tri_solitaire::table::build_move_table;
use tri_solitaire::tri_pos::{line_to_offset, TriPos};

#[test]
fn steps_on_interior_cell_are_undone_by_opposite_steps() {
    let p = TriPos::new(2, 1, 5);
    let q = p.up_left().unwrap();
    assert_eq!((q.line, q.pos), (1, 0));
    assert_eq!(q.down_right(), Some(p));
    let q = p.up_right().unwrap();
    assert_eq!((q.line, q.pos), (1, 1));
    assert_eq!(q.down_left(), Some(p));
    let q = p.left().unwrap();
    assert_eq!((q.line, q.pos), (2, 0));
    assert_eq!(q.right(), Some(p));
    let q = p.right().unwrap();
    assert_eq!((q.line, q.pos), (2, 2));
    assert_eq!(q.left(), Some(p));
    let q = p.down_left().unwrap();
    assert_eq!((q.line, q.pos), (3, 1));
    assert_eq!(q.up_right(), Some(p));
    let q = p.down_right().unwrap();
    assert_eq!((q.line, q.pos), (3, 2));
    assert_eq!(q.up_left(), Some(p));
}

#[test]
fn steps_off_the_board_are_absent() {
    let apex = TriPos::new(0, 0, 4);
    assert_eq!(apex.up_left(), None);
    assert_eq!(apex.up_right(), None);
    assert_eq!(apex.left(), None);
    assert_eq!(apex.right(), None);
    let corner = TriPos::new(3, 3, 4);
    assert_eq!(corner.down_left(), None);
    assert_eq!(corner.down_right(), None);
    assert_eq!(corner.right(), None);
    assert_eq!(corner.up_right(), None);
    assert_eq!(corner.up_left(), Some(TriPos::new(2, 2, 4)));
}

#[test]
fn row_offsets_are_triangular_numbers() {
    let expected = [0u8, 1, 3, 6, 10, 15, 21];
    for (line, e) in expected.iter().enumerate() {
        assert_eq!(line_to_offset(line as u8), *e);
    }
    assert_eq!(line_to_offset(22), 253);
}

#[test]
fn linear_index_is_a_bijection_on_size_four() {
    let side = 4u8;
    let mut seen = vec![false; 10];
    for line in 0..side {
        for pos in 0..=line {
            let p = TriPos::new(line, pos, side);
            let i = p.to_idx();
            assert_eq!(i, p.to_off() as usize);
            assert!(i < 10);
            assert!(!seen[i]);
            seen[i] = true;
        }
    }
    assert!(seen.iter().all(|s| *s));
    assert_eq!(TriPos::new(0, 0, side).to_idx(), 0);
    assert_eq!(TriPos::new(1, 1, side).to_idx(), 2);
    assert_eq!(TriPos::new(2, 0, side).to_idx(), 3);
    assert_eq!(TriPos::new(3, 3, side).to_idx(), 9);
}

#[test]
fn move_table_of_size_four() {
    let table = build_move_table(4);
    let expected: Vec<Vec<(u8, u8)>> = vec![
        vec![(1, 3), (2, 5)],
        vec![(3, 6), (4, 8)],
        vec![(4, 7), (5, 9)],
        vec![(1, 0), (4, 5)],
        vec![],
        vec![(2, 0), (4, 3)],
        vec![(3, 1), (7, 8)],
        vec![(4, 2), (8, 9)],
        vec![(4, 1), (7, 6)],
        vec![(5, 2), (8, 7)],
    ];
    assert_eq!(table, expected);
}

#[test]
fn move_table_entries_are_board_cells() {
    for side in 1..=22u8 {
        let table = build_move_table(side);
        let n = line_to_offset(side) as usize;
        assert_eq!(table.len(), n);
        for (i, jumps) in table.iter().enumerate() {
            assert!(jumps.len() <= 6);
            for (mid, land) in jumps {
                assert!((*mid as usize) < n);
                assert!((*land as usize) < n);
                assert!(*mid as usize != i && *land as usize != i && mid != land);
            }
        }
    }
}
