use std::collections::HashSet;

use proof_engine::modeling::{
    char_bitmap, hilbert_d2xy, text_cells, remap_indices, remove_indexed, removal_remap, AxisFlip, BrushKind,
    SelectionSystem, SymmetryMode,
};

fn set(items: &[usize]) -> HashSet<usize> {
    items.iter().copied().collect()
}

#[test]
fn test_symmetry_mirrors() {
    let m = SymmetryMode::XYZ.mirror_flips();
    assert_eq!(m.len(), 7);
    assert!(m.contains(&AxisFlip { x: true, y: false, z: false }));
    assert!(m.contains(&AxisFlip { x: true, y: true, z: true }));
}

#[test]
fn mirror_flips_per_mode() {
    assert!(SymmetryMode::Off.mirror_flips().is_empty());
    assert_eq!(
        SymmetryMode::Y.mirror_flips(),
        vec![AxisFlip { x: false, y: true, z: false }]
    );
    assert_eq!(
        SymmetryMode::XZ.mirror_flips(),
        vec![
            AxisFlip { x: true, y: false, z: false },
            AxisFlip { x: false, y: false, z: true },
            AxisFlip { x: true, y: false, z: true },
        ]
    );
}

#[test]
fn brush_kind_defaults_to_add() {
    assert_eq!(BrushKind::default(), BrushKind::Add);
}

#[test]
fn selection_system_basic_ops() {
    let mut sel = SelectionSystem::new();
    sel.select_all(4);
    assert_eq!(sel.selected, set(&[0, 1, 2, 3]));
    sel.remove(2);
    sel.toggle(0);
    sel.toggle(7);
    assert_eq!(sel.selected, set(&[1, 3, 7]));
    sel.invert(5);
    assert_eq!(sel.selected, set(&[0, 2, 4]));
    sel.add(9);
    assert_eq!(sel.selected, set(&[0, 2, 4, 9]));
    sel.clear();
    assert!(sel.selected.is_empty());
}

#[test]
fn selection_invert_twice_restores() {
    let mut sel = SelectionSystem::new();
    sel.add(1);
    sel.add(3);
    sel.invert(6);
    sel.invert(6);
    assert_eq!(sel.selected, set(&[1, 3]));
}

#[test]
fn selection_named_sets() {
    let mut sel = SelectionSystem::new();
    sel.add(1);
    sel.add(2);
    sel.save_named_set("head");
    sel.clear();
    sel.add(5);
    sel.union_named_set("head");
    assert_eq!(sel.selected, set(&[1, 2, 5]));
    sel.clear();
    sel.add(8);
    sel.load_named_set("head");
    assert_eq!(sel.selected, set(&[1, 2]));
    // unknown names change nothing
    sel.load_named_set("tail");
    sel.union_named_set("tail");
    assert_eq!(sel.selected, set(&[1, 2]));
    // saving again replaces the stored selection
    sel.add(4);
    sel.save_named_set("head");
    sel.clear();
    sel.load_named_set("head");
    assert_eq!(sel.selected, set(&[1, 2, 4]));
    assert_eq!(sel.named_sets.len(), 1);
}

#[test]
fn selection_by_hits_group_and_char() {
    let mut sel = SelectionSystem::new();
    sel.add(10);
    sel.apply_hits(&[true, false, true], true);
    assert_eq!(sel.selected, set(&[0, 2, 10]));
    sel.apply_hits(&[false, true], false);
    assert_eq!(sel.selected, set(&[1]));
    sel.select_by_group(&[3, 1, 3, 2], 3, false);
    assert_eq!(sel.selected, set(&[0, 2]));
    sel.select_by_char(&['#', '.', '#'], '.', true);
    assert_eq!(sel.selected, set(&[0, 1, 2]));
}

#[test]
fn glyph_bitmaps() {
    assert_eq!(char_bitmap('A'), vec![0b01110, 0b10001, 0b10001, 0b11111, 0b10001, 0b10001, 0b10001]);
    assert_eq!(char_bitmap(' '), vec![0; 7]);
    assert_eq!(char_bitmap('~'), vec![0b11111, 0b10001, 0b10001, 0b10001, 0b10001, 0b10001, 0b11111]);
    assert_eq!(char_bitmap('7').len(), 7);
}

#[test]
fn hilbert_curve_points() {
    assert_eq!(hilbert_d2xy(1, 0), (0, 0));
    // order-2 curve visits (0,0) (0,1) (1,1) (1,0)
    assert_eq!(hilbert_d2xy(2, 0), (0, 0));
    assert_eq!(hilbert_d2xy(2, 1), (0, 1));
    assert_eq!(hilbert_d2xy(2, 2), (1, 1));
    assert_eq!(hilbert_d2xy(2, 3), (1, 0));
    // every cell of a 4x4 grid is visited exactly once
    let mut seen = HashSet::new();
    for d in 0..16 {
        let (x, y) = hilbert_d2xy(4, d);
        assert!(x < 4 && y < 4);
        assert!(seen.insert((x, y)));
    }
    assert_eq!(hilbert_d2xy(4, 5), (0, 3));
    assert_eq!(hilbert_d2xy(4, 15), (3, 0));
}

#[test]
fn hilbert_curve_is_a_path_through_every_cell() {
    for n in [2u32, 4, 8, 16, 32] {
        let mut seen = HashSet::new();
        let mut prev: Option<(u32, u32)> = None;
        for d in 0..n * n {
            let (x, y) = hilbert_d2xy(n, d);
            assert!(x < n && y < n);
            assert!(seen.insert((x, y)));
            if let Some((px, py)) = prev {
                let step = (x as i64 - px as i64).abs() + (y as i64 - py as i64).abs();
                assert_eq!(step, 1);
            }
            prev = Some((x, y));
        }
        assert_eq!(seen.len() as u32, n * n);
    }
}

#[test]
fn removal_keeps_order_and_remaps_layers() {
    let removed = set(&[1, 3]);
    let remap = removal_remap(5, &removed);
    assert_eq!(remap, vec![Some(0), None, Some(1), None, Some(2)]);
    let mut items = vec!['a', 'b', 'c', 'd', 'e'];
    remove_indexed(&mut items, &removed);
    assert_eq!(items, vec!['a', 'c', 'e']);
    // every surviving index lands where the map says
    let before = ['a', 'b', 'c', 'd', 'e'];
    for (i, slot) in remap.iter().enumerate() {
        if let Some(j) = slot {
            assert_eq!(items[*j], before[i]);
        }
    }
    assert_eq!(remap_indices(&[4, 1, 0, 9, 2], &remap), vec![2, 0, 1]);
}

#[test]
fn text_cells_follow_the_font() {
    let cells = text_cells(&['1']);
    // '1': rows 00100 01100 00100 00100 00100 00100 01110
    assert_eq!(
        cells,
        vec![
            (0, 0, 2),
            (0, 1, 1),
            (0, 1, 2),
            (0, 2, 2),
            (0, 3, 2),
            (0, 4, 2),
            (0, 5, 2),
            (0, 6, 1),
            (0, 6, 2),
            (0, 6, 3),
        ]
    );
    let two = text_cells(&[' ', '.']);
    assert_eq!(two, vec![(1, 5, 1), (1, 5, 2), (1, 6, 1), (1, 6, 2)]);
}

fn chain_matrix(n: usize, pairs: &[(usize, usize)]) -> Vec<bool> {
    let mut m = vec![false; n * n];
    for i in 0..n {
        m[i * n + i] = true;
    }
    for &(a, b) in pairs {
        m[a * n + b] = true;
        m[b * n + a] = true;
    }
    m
}

#[test]
fn grow_adds_neighbours_of_the_selection_once() {
    // a chain 0-1-2-3 and a lone 4: growing {0} reaches 1 only
    let near = chain_matrix(5, &[(0, 1), (1, 2), (2, 3)]);
    let mut sel = SelectionSystem::new();
    sel.add(0);
    sel.grow(5, &near);
    let mut got: Vec<usize> = sel.selected.iter().copied().collect();
    got.sort();
    assert_eq!(got, vec![0, 1]);
    sel.grow(5, &near);
    let mut got: Vec<usize> = sel.selected.iter().copied().collect();
    got.sort();
    assert_eq!(got, vec![0, 1, 2]);
}

#[test]
fn shrink_drops_the_boundary() {
    let near = chain_matrix(5, &[(0, 1), (1, 2), (2, 3)]);
    let mut sel = SelectionSystem::new();
    for i in [0, 1, 2, 4] {
        sel.add(i);
    }
    // 2 touches the unselected 3; 4 touches nothing unselected
    sel.shrink(5, &near);
    let mut got: Vec<usize> = sel.selected.iter().copied().collect();
    got.sort();
    assert_eq!(got, vec![0, 1, 4]);
}

#[test]
fn grow_and_shrink_leave_a_full_selection_alone() {
    // every particle is selected, plus an index past the particles
    let near = chain_matrix(2, &[(0, 1)]);
    let mut sel = SelectionSystem::new();
    for i in [0, 1, 7] {
        sel.add(i);
    }
    sel.grow(2, &near);
    sel.shrink(2, &near);
    let mut got: Vec<usize> = sel.selected.iter().copied().collect();
    got.sort();
    assert_eq!(got, vec![0, 1, 7]);
    // with no particles at all, nothing changes either
    let mut sel = SelectionSystem::new();
    sel.add(3);
    sel.grow(0, &[]);
    sel.shrink(0, &[]);
    assert_eq!(sel.selected.len(), 1);
}

/// Which of the points lie within `radius` of each other, row-major.
fn within(points: &[(f32, f32, f32)], radius: f32) -> Vec<bool> {
    let n = points.len();
    let mut m = vec![false; n * n];
    for i in 0..n {
        for j in 0..n {
            let (dx, dy, dz) = (points[i].0 - points[j].0, points[i].1 - points[j].1, points[i].2 - points[j].2);
            m[i * n + j] = dx * dx + dy * dy + dz * dz <= radius * radius;
        }
    }
    m
}

#[test]
fn test_selection_grow_shrink() {
    let mut sel = SelectionSystem::new();
    let particles = [(0.0f32, 0.0f32, 0.0f32), (0.5, 0.0, 0.0), (2.0, 0.0, 0.0)];
    sel.add(0);
    sel.grow(particles.len(), &within(&particles, 0.6));
    assert!(sel.selected.contains(&1));
    assert!(!sel.selected.contains(&2));
}
