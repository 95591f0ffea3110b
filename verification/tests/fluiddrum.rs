use synesthesia::fluiddrum::{
    disc_cells, initial_strike_points, interior_index, pixel_cell, touch_end, vortex_source, ColorMode,
    DrumType, TouchEnd, WaveMode, GRID_H, GRID_W, INITIAL_STRIKES, MAX_HITS,
};

#[test]
fn drum_labels_in_order() {
    let names: Vec<&str> = DrumType::ALL.iter().map(|d| d.label()).collect();
    assert_eq!(names, vec!["Kick", "Snare", "Tom", "Cymbal", "Bell", "Bass"]);
}

#[test]
fn wave_labels_in_order() {
    let names: Vec<&str> = WaveMode::ALL.iter().map(|w| w.label()).collect();
    assert_eq!(names, vec!["Membrane", "Ripple", "Interference", "Vortex"]);
}

#[test]
fn color_labels_in_order() {
    let names: Vec<&str> = ColorMode::ALL.iter().map(|c| c.label()).collect();
    assert_eq!(names, vec!["Ocean", "Fire", "Plasma", "Mono", "Lava", "Aurora", "Neon", "Oil"]);
}

#[test]
fn interior_index_skips_the_border() {
    assert_eq!(interior_index(0, 5), None);
    assert_eq!(interior_index(5, 0), None);
    assert_eq!(interior_index(GRID_W - 1, 5), None);
    assert_eq!(interior_index(5, GRID_H - 1), None);
    assert_eq!(interior_index(1, 1), Some(GRID_W + 1));
    assert_eq!(interior_index(198, 158), Some(158 * 200 + 198));
    assert_eq!(interior_index(1000, 1000), None);
}

#[test]
fn disc_cells_small_disc() {
    assert_eq!(
        disc_cells(10, 10, 1),
        vec![(9 * 200 + 10, 1), (10 * 200 + 9, 1), (10 * 200 + 10, 0), (10 * 200 + 11, 1), (11 * 200 + 10, 1)]
    );
    assert_eq!(disc_cells(10, 10, 0), vec![(10 * 200 + 10, 0)]);
    // radius 3: 29 cells (|dx|, |dy| <= 3, dx^2 + dy^2 <= 9)
    let d = disc_cells(50, 50, 3);
    assert_eq!(d.len(), 29);
    assert!(d.windows(2).all(|p| p[0].0 < p[1].0));
}

#[test]
fn disc_cells_clipped_at_the_border() {
    assert_eq!(disc_cells(1, 1, 1), vec![(201, 0), (202, 1), (401, 1)]);
    assert!(disc_cells(0, 0, 1).is_empty());
    assert_eq!(disc_cells(0, 0, 2), vec![(201, 2)]);
    assert!(disc_cells(0, 0, 0).is_empty());
    assert_eq!(disc_cells(199, 159, 2).len(), 1);
}

#[test]
fn pixel_cell_scales_the_grid() {
    assert_eq!(pixel_cell(0, 0, 400, 320), 0);
    assert_eq!(pixel_cell(399, 319, 400, 320), 159 * 200 + 199);
    assert_eq!(pixel_cell(1, 1, 400, 320), 0);
    assert_eq!(pixel_cell(2, 2, 400, 320), 201);
    assert_eq!(pixel_cell(0, 0, 1, 1), 0);
    // a small image repeats every 200 / 7th column
    assert_eq!(pixel_cell(3, 1, 7, 3), (160 / 3) * 200 + 600 / 7);
}

/// The float computation of the vortex borrowing cell.
fn float_vortex(x: usize, y: usize) -> usize {
    let cx = (GRID_W / 2) as isize;
    let cy = (GRID_H / 2) as isize;
    let rx = x as isize - cx;
    let ry = y as isize - cy;
    let len = ((rx * rx + ry * ry) as f32).sqrt().max(1.0);
    let tx = (-ry as f32 / len).round() as isize;
    let ty = (rx as f32 / len).round() as isize;
    let nx2 = (x as isize + tx).clamp(1, GRID_W as isize - 2) as usize;
    let ny2 = (y as isize + ty).clamp(1, GRID_H as isize - 2) as usize;
    ny2 * GRID_W + nx2
}

#[test]
fn vortex_source_matches_the_float_tangent() {
    for y in 1..GRID_H - 1 {
        for x in 1..GRID_W - 1 {
            assert_eq!(vortex_source(x, y), float_vortex(x, y), "{x} {y}");
        }
    }
    // right of the centre the tangent points down, above it to the right
    assert_eq!(vortex_source(150, 80), 81 * 200 + 150);
    assert_eq!(vortex_source(100, 40), 40 * 200 + 101);
    assert_eq!(vortex_source(100, 80), 80 * 200 + 100);
}

#[test]
fn touch_end_actions() {
    assert_eq!(touch_end(false, false), TouchEnd::Hit);
    assert_eq!(touch_end(false, true), TouchEnd::Hit);
    assert_eq!(touch_end(true, false), TouchEnd::StopDrag);
    assert_eq!(touch_end(true, true), TouchEnd::KeepDrag);
}

#[test]
fn initial_strikes_stay_inside() {
    for _ in 0..50 {
        let pts = initial_strike_points();
        assert_eq!(pts.len(), INITIAL_STRIKES);
        for (x, y) in pts {
            assert!((20..GRID_W - 20).contains(&x));
            assert!((20..GRID_H - 20).contains(&y));
        }
    }
    assert_eq!(MAX_HITS, 20);
}

#[test]
fn initial_strikes_vary() {
    let first = initial_strike_points();
    let mut differs = false;
    for _ in 0..50 {
        if initial_strike_points() != first {
            differs = true;
        }
    }
    assert!(differs);
    assert!(first.iter().any(|&(x, _)| x != 20) || first.iter().any(|&(_, y)| y != 20));
}
