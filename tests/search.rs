use fnv::FnvHashSet;
use tetris_fill::grid::{requested_total, Grid};
use tetris_fill::shape::Shape;

fn set_of(cells: &[(i8, i8)]) -> FnvHashSet<(i8, i8)> {
    cells.iter().copied().collect()
}

fn square() -> Shape {
    Shape::from_str("##\n##", 0, '#')
}

fn line() -> Shape {
    Shape::from_str("####", 1, '+')
}

#[test]
fn pattern_marks_become_offsets() {
    let z = Shape::from_str("##\n ##", 1, 'Z');
    assert_eq!(z.pieces, set_of(&[(0, 0), (1, 0), (1, 1), (2, 1)]));
    assert_eq!(z.glyph, 'Z');
    assert_eq!(z.additional_rotations.len(), 1);
    assert_eq!(z.additional_rotations[0], set_of(&[(0, 0), (0, -1), (1, -1), (1, -2)]));
}

#[test]
fn pattern_without_marks_is_empty() {
    let s = Shape::from_str("  \n ", 2, 'x');
    assert!(s.pieces.is_empty());
    assert_eq!(s.additional_rotations.len(), 2);
    assert!(s.additional_rotations[1].is_empty());
}

#[test]
fn rotation_turns_each_offset() {
    let r = Shape::rotate_pieces(&set_of(&[(0, 0), (1, 0), (2, 0), (0, 1)]));
    assert_eq!(r, set_of(&[(0, 0), (0, -1), (0, -2), (1, 0)]));
}

#[test]
fn four_rotations_give_the_set_back() {
    let l = Shape::from_str("###\n#", 3, 'L');
    let once = Shape::rotate_pieces(&l.pieces);
    let twice = Shape::rotate_pieces(&once);
    let thrice = Shape::rotate_pieces(&twice);
    let four = Shape::rotate_pieces(&thrice);
    assert_ne!(once, l.pieces);
    assert_eq!(four, l.pieces);
    assert_eq!(l.additional_rotations[2], thrice);
}

#[test]
fn all_rotations_lists_base_then_turns() {
    let t = Shape::from_str("###\n #", 3, 'T');
    let all = t.all_rotations();
    assert_eq!(all.len(), 4);
    assert_eq!(*all[0], t.pieces);
    assert_eq!(*all[1], Shape::rotate_pieces(&t.pieces));
    assert_eq!(square().all_rotations().len(), 1);
}

#[test]
fn out_of_bounds_is_never_vacant() {
    let g = Grid::new(3, 2);
    for p in [(-1, 0), (0, -1), (3, 0), (0, 2), (3, 2), (-5, -5), (200, 1)] {
        assert!(!g.is_vacant(p));
    }
    assert!(g.is_vacant((0, 0)));
    assert!(g.is_vacant((2, 1)));
}

#[test]
fn occupied_is_not_vacant() {
    let mut g = Grid::new(3, 3);
    g.place(&set_of(&[(0, 0)]), (1, 1), 0, '#');
    assert!(!g.is_vacant((1, 1)));
    assert!(g.is_vacant((1, 0)));
}

#[test]
fn place_records_translated_cells() {
    let mut g = Grid::new(4, 4);
    let s = set_of(&[(0, 0), (1, 0), (0, 1)]);
    g.place(&s, (2, 3), 5, 'L');
    assert_eq!(g.cells.len(), 3);
    assert_eq!(g.placement_at(2, 3), Some((5, 'L')));
    assert_eq!(g.placement_at(1, 3), Some((5, 'L')));
    assert_eq!(g.placement_at(2, 2), Some((5, 'L')));
    assert_eq!(g.placement_at(3, 3), None);
}

#[test]
fn place_then_remove_restores_cells() {
    let mut g = Grid::new(4, 4);
    g.place(&set_of(&[(0, 0), (1, 0)]), (1, 0), 0, '#');
    let before = g.cells.clone();
    let s = set_of(&[(0, 0), (0, 1), (1, 1)]);
    g.place(&s, (3, 3), 1, 'Z');
    assert_eq!(g.cells.len(), 5);
    g.remove(&s, (3, 3));
    assert_eq!(g.cells, before);
}

#[test]
fn placement_vector_avoids_occupied_cells() {
    let mut g = Grid::new(2, 2);
    g.place(&set_of(&[(0, 0)]), (0, 0), 0, '#');
    let bar = set_of(&[(0, 0), (1, 0)]);
    let v = g.find_placement_vector(&bar).expect("the lower row is free");
    for (x, y) in bar.iter() {
        let t = (v.0 - *x as i16, v.1 - *y as i16);
        assert!(g.is_vacant(t));
        assert_eq!(t.1, 1);
    }
}

#[test]
fn placement_vector_is_first_in_scan_order() {
    let g = Grid::new(3, 3);
    let v = g.find_placement_vector(&set_of(&[(0, 0)])).unwrap();
    assert_eq!(v, (0, 0));
    let bar = set_of(&[(0, 0), (1, 0)]);
    let v = g.find_placement_vector(&bar).unwrap();
    let mut covered: Vec<(i16, i16)> = bar.iter().map(|(x, y)| (v.0 - *x as i16, v.1 - *y as i16)).collect();
    covered.sort();
    assert!(covered.contains(&(0, 0)));
}

#[test]
fn no_placement_when_shape_does_not_fit() {
    let g = Grid::new(1, 1);
    assert_eq!(g.find_placement_vector(&line().pieces), None);
    assert_eq!(g.find_placement_vector(&FnvHashSet::default()), None);
}

#[test]
fn single_square_fills_two_by_two() {
    let sq = square();
    let ln = line();
    let mut g = Grid::new(2, 2);
    let mut shapes = vec![(&sq, 1), (&ln, 0)];
    assert!(g.fill_with_rec(&mut shapes, 0));
    assert_eq!(g.cells.len(), 4);
    assert!(g.cells.values().all(|&(index, glyph)| index == 0 && glyph == '#'));
    assert!(shapes.iter().all(|&(_, n)| n == 0));
}

#[test]
fn line_in_one_by_one_fails_and_leaves_grid_empty() {
    let ln = line();
    let mut g = Grid::new(1, 1);
    let mut shapes = vec![(&ln, 1)];
    assert!(!g.fill_with_rec(&mut shapes, 0));
    assert!(g.cells.is_empty());
    assert_eq!(shapes[0].1, 1);
}

#[test]
fn nothing_requested_succeeds_at_once() {
    let sq = square();
    let mut g = Grid::new(3, 3);
    let mut shapes = vec![(&sq, 0)];
    assert!(g.fill_with_rec(&mut shapes, 0));
    assert!(g.cells.is_empty());
}

#[test]
fn area_mismatch_terminates() {
    let sq = square();
    let mut g = Grid::new(3, 3);
    let mut shapes = vec![(&sq, 3)];
    assert!(!g.fill_with_rec(&mut shapes, 0));
    assert!(g.cells.is_empty());
    assert_eq!(shapes[0].1, 3);
}

#[test]
fn fewer_tiles_than_area_leave_cells_vacant() {
    let sq = square();
    let mut g = Grid::new(3, 3);
    let mut shapes = vec![(&sq, 1)];
    assert!(g.fill_with_rec(&mut shapes, 0));
    assert_eq!(g.cells.len(), 4);
}

#[test]
fn mixed_shapes_fill_four_by_four() {
    let sq = square();
    let ln = line();
    let l = Shape::from_str("###\n#", 3, 'L');
    let rl = Shape::from_str("#\n###", 3, 'J');
    let mut g = Grid::new(4, 4);
    let mut shapes = vec![(&sq, 1), (&ln, 1), (&l, 1), (&rl, 1)];
    assert!(g.fill_with_rec(&mut shapes, 0));
    assert_eq!(g.cells.len(), 16);
    let mut indices: Vec<usize> = g.cells.values().map(|&(i, _)| i).collect();
    indices.sort();
    indices.dedup();
    assert_eq!(indices, vec![0, 1, 2, 3]);
    for y in 0..4 {
        for x in 0..4 {
            assert!(!g.is_vacant((x, y)));
        }
    }
}

#[test]
fn vertical_line_needs_its_rotation() {
    let ln = line();
    let mut g = Grid::new(1, 4);
    let mut shapes = vec![(&ln, 1)];
    assert!(g.fill_with_rec(&mut shapes, 7));
    assert_eq!(g.cells.len(), 4);
    for y in 0..4 {
        assert_eq!(g.placement_at(0, y), Some((7, '+')));
    }
}

#[test]
fn color_count_is_largest_index_plus_one() {
    let mut g = Grid::new(4, 4);
    assert_eq!(g.color_count(), 2);
    g.place(&set_of(&[(0, 0)]), (0, 0), 0, '#');
    assert_eq!(g.color_count(), 2);
    g.place(&set_of(&[(0, 0)]), (3, 3), 4, '#');
    assert_eq!(g.color_count(), 5);
}

#[test]
fn render_draws_bounding_box() {
    let z = Shape::from_str("##\n ##", 1, 'Z');
    assert_eq!(z.render(), "ZZ \n ZZ\n");
    let l = Shape::from_str("###\n#", 3, 'L');
    assert_eq!(l.render(), "LLL\nL  \n");
}

#[test]
fn render_of_empty_shape_is_one_blank() {
    let s = Shape::from_str("", 0, 'x');
    assert_eq!(s.render(), " \n");
}

#[test]
fn render_handles_negative_offsets() {
    let s = Shape {
        pieces: set_of(&[(-1, -1), (0, 0)]),
        additional_rotations: vec![],
        glyph: 'o',
    };
    assert_eq!(s.render(), "o \n o\n");
}

#[test]
fn requested_total_sums_counts() {
    let sq = square();
    let ln = line();
    assert_eq!(requested_total(&vec![(&sq, 2), (&ln, 3)]), Some(5));
    assert_eq!(requested_total(&vec![]), Some(0));
    assert_eq!(requested_total(&vec![(&sq, usize::MAX), (&ln, 1)]), None);
    assert_eq!(requested_total(&vec![(&sq, usize::MAX), (&ln, 0)]), Some(usize::MAX));
}

#[test]
fn place_on_occupied_cell_overwrites() {
    let mut g = Grid::new(2, 2);
    g.place(&set_of(&[(0, 0), (1, 0), (0, 1), (1, 1)]), (1, 1), 3, '#');
    g.place(&set_of(&[(0, 0)]), (0, 0), 7, 'x');
    assert_eq!(g.cells.len(), 4);
    assert_eq!(g.placement_at(0, 0), Some((7, 'x')));
    assert_eq!(g.placement_at(1, 0), Some((3, '#')));
    assert_eq!(g.placement_at(0, 1), Some((3, '#')));
    assert_eq!(g.placement_at(1, 1), Some((3, '#')));
}

#[test]
fn wide_pattern_is_read() {
    let mut text = String::new();
    for row in 0..3 {
        for col in 0..60 {
            text.push(if col == 59 && row == 2 { '#' } else { ' ' });
        }
        text.push('\n');
    }
    let s = Shape::from_str(&text, 0, 'w');
    assert_eq!(s.pieces, set_of(&[(59, 2)]));
}

#[test]
fn offsets_at_the_type_minimum_are_searched() {
    let g = Grid::new(3, 3);
    let v = g.find_placement_vector(&set_of(&[(-128, 0)])).unwrap();
    assert_eq!(v, (-128, 0));
}

#[test]
fn two_lines_fill_two_by_four() {
    let ln = line();
    let mut g = Grid::new(2, 4);
    let mut shapes = vec![(&ln, 2)];
    assert!(g.fill_with_rec(&mut shapes, 0));
    for y in 0..4 {
        assert_eq!(g.placement_at(0, y), Some((0, '+')));
        assert_eq!(g.placement_at(1, y), Some((1, '+')));
    }
}

#[test]
fn one_square_in_three_by_three_takes_the_corner() {
    let sq = square();
    let mut g = Grid::new(3, 3);
    let mut shapes = vec![(&sq, 1)];
    assert!(g.fill_with_rec(&mut shapes, 0));
    for (x, y) in [(0, 0), (1, 0), (0, 1), (1, 1)] {
        assert_eq!(g.placement_at(x, y), Some((0, '#')));
    }
    assert_eq!(g.cells.len(), 4);
}
