use synesthesia::camera::{
    find_blobs, label_components, matches_target, process_frame, Blob, TrackTarget, MIN_BLOB,
};

/// The hue/saturation/value thresholds of the colour windows, computed in
/// `f32` the way a float pipeline would.
fn float_hsv(r: u8, g: u8, b: u8) -> (f32, f32, f32) {
    let rf = r as f32 / 255.0;
    let gf = g as f32 / 255.0;
    let bf = b as f32 / 255.0;
    let max = rf.max(gf).max(bf);
    let min = rf.min(gf).min(bf);
    let delta = max - min;
    let h = if delta < 0.001 {
        0.0
    } else if max == rf {
        60.0 * ((gf - bf) / delta).rem_euclid(6.0)
    } else if max == gf {
        60.0 * ((bf - rf) / delta + 2.0)
    } else {
        60.0 * ((rf - gf) / delta + 4.0)
    };
    let s = if max < 0.001 { 0.0 } else { delta / max };
    (h, s, max)
}

fn float_matches(r: u8, g: u8, b: u8, tgt: TrackTarget) -> bool {
    let (h, s, v) = float_hsv(r, g, b);
    match tgt {
        TrackTarget::Skin => {
            if v < 0.20 || s < 0.08 {
                return false;
            }
            let warm = h < 38.0 || h > 322.0;
            let rgb_ok = r > 80 && g > 40 && b > 20 && r > b && (r as i32 - g as i32).abs() > 10;
            warm && s < 0.90 && rgb_ok
        }
        TrackTarget::TennisBall => h >= 45.0 && h <= 75.0 && s > 0.35 && v > 0.40,
        TrackTarget::OrangeBall => h >= 10.0 && h <= 35.0 && s > 0.50 && v > 0.35,
    }
}

/// A colour whose hue, saturation or value sits exactly on a threshold.
fn on_threshold(r: u8, g: u8, b: u8) -> bool {
    let (r, g, b) = (r as i64, g as i64, b as i64);
    let mx = r.max(g).max(b);
    let mn = r.min(g).min(b);
    let d = mx - mn;
    if d > 0 {
        let hs = if mx == r {
            if g >= b { 60 * (g - b) } else { 60 * (g - b + 6 * d) }
        } else if mx == g {
            60 * (b - r + 2 * d)
        } else {
            60 * (r - g + 4 * d)
        };
        if [10, 35, 38, 45, 75, 322].iter().any(|deg| hs == deg * d) {
            return true;
        }
    }
    [8, 35, 50, 90].iter().any(|k| d * 100 == k * mx) || [20, 35, 40].iter().any(|k| mx * 100 == k * 255)
}

#[test]
fn matches_target_agrees_with_float_windows_off_the_thresholds() {
    let targets = [TrackTarget::Skin, TrackTarget::TennisBall, TrackTarget::OrangeBall];
    let mut compared = 0u32;
    for r in (0..=255u32).step_by(5) {
        for g in (0..=255u32).step_by(3) {
            for b in (0..=255u32).step_by(7) {
                let (r, g, b) = (r as u8, g as u8, b as u8);
                if on_threshold(r, g, b) {
                    continue;
                }
                for &t in &targets {
                    assert_eq!(matches_target(r, g, b, t), float_matches(r, g, b, t), "{r} {g} {b} {t:?}");
                    compared += 1;
                }
            }
        }
    }
    assert!(compared > 100_000);
}

#[test]
fn matches_target_examples() {
    // chartreuse yellow: hue about 66 degrees, vivid, bright
    assert!(matches_target(200, 220, 30, TrackTarget::TennisBall));
    assert!(!matches_target(200, 220, 30, TrackTarget::OrangeBall));
    // pure orange: hue about 33 degrees
    assert!(matches_target(255, 140, 0, TrackTarget::OrangeBall));
    assert!(!matches_target(255, 140, 0, TrackTarget::TennisBall));
    // a warm skin tone
    assert!(matches_target(220, 170, 140, TrackTarget::Skin));
    // greys and black match nothing
    for t in [TrackTarget::Skin, TrackTarget::TennisBall, TrackTarget::OrangeBall] {
        assert!(!matches_target(128, 128, 128, t));
        assert!(!matches_target(0, 0, 0, t));
        assert!(!matches_target(255, 255, 255, t));
    }
    // skin needs |r - g| > 10
    assert!(!matches_target(150, 145, 100, TrackTarget::Skin));
    // too dark for a tennis ball (value 0.39)
    assert!(!matches_target(90, 100, 10, TrackTarget::TennisBall));
    // exactly on the 10 degree edge of the orange window: included
    assert!(matches_target(111, 26, 9, TrackTarget::OrangeBall));
}

#[test]
fn track_target_labels() {
    assert_eq!(TrackTarget::Skin.label(), "Skin");
    assert_eq!(TrackTarget::TennisBall.label(), "Tennis ball");
    assert_eq!(TrackTarget::OrangeBall.label(), "Orange ball");
}

fn block(cx0: u32, cy0: u32, wcells: u32, hcells: u32) -> Vec<(u32, u32)> {
    let mut pts = Vec::new();
    for cy in cy0..cy0 + hcells {
        for cx in cx0..cx0 + wcells {
            pts.push((cx * 4, cy * 4));
        }
    }
    pts
}

#[test]
fn label_components_finds_four_connected_islands() {
    // 4 x 3 grid:
    // X X . X
    // . X . X
    // X . . .
    let g = vec![
        true, true, false, true, //
        false, true, false, true, //
        true, false, false, false,
    ];
    let comps = label_components(&g, 4);
    assert_eq!(comps.len(), 3);
    let mut c0 = comps[0].clone();
    c0.sort();
    assert_eq!(c0, vec![0, 1, 5]);
    let mut c1 = comps[1].clone();
    c1.sort();
    assert_eq!(c1, vec![3, 7]);
    assert_eq!(comps[2], vec![8]);
    // diagonal cells are not neighbours
    let g = vec![true, false, false, true];
    assert_eq!(label_components(&g, 2).len(), 2);
    // no wrap-around between rows
    let g = vec![false, true, true, false];
    assert_eq!(label_components(&g, 2).len(), 2);
    assert!(label_components(&vec![], 0).is_empty());
}

#[test]
fn find_blobs_none_below_min_blob() {
    assert!(find_blobs(&vec![], 64, 64).is_empty());
    // 19 cells: one short of a blob
    let pts: Vec<(u32, u32)> = block(0, 0, 19, 1);
    assert_eq!(find_blobs(&pts, 160, 64).len(), 0);
    let pts: Vec<(u32, u32)> = block(0, 0, 20, 1);
    assert_eq!(find_blobs(&pts, 160, 64).len(), 1);
    assert_eq!(MIN_BLOB, 20);
}

#[test]
fn find_blobs_single_block() {
    let pts = block(2, 3, 5, 5);
    let b = find_blobs(&pts, 64, 64);
    assert_eq!(b.len(), 1);
    // columns 2..7 five times each, rows 3..8 five times each
    assert_eq!(b[0], Blob { cells: 25, sum_x: 5 * (2 + 3 + 4 + 5 + 6), sum_y: 5 * (3 + 4 + 5 + 6 + 7) });
    // several matched pixels in one cell count once
    let mut pts2 = pts.clone();
    pts2.push((9, 13));
    pts2.push((8, 12));
    assert_eq!(find_blobs(&pts2, 64, 64), b);
}

#[test]
fn find_blobs_two_blobs_left_to_right() {
    // big blob on the right (6 x 6 = 36 cells), smaller on the left (5 x 5 = 25 cells)
    let mut pts = block(20, 0, 6, 6);
    pts.extend(block(0, 0, 5, 5));
    let b = find_blobs(&pts, 128, 64);
    assert_eq!(b.len(), 2);
    assert_eq!(b[0].cells, 25);
    assert_eq!(b[1].cells, 36);
    assert!(b[0].sum_x * (b[1].cells as u64) <= b[1].sum_x * (b[0].cells as u64));
}

#[test]
fn find_blobs_keeps_second_only_above_thirty_percent() {
    // 100 cells and 29 cells: 29 * 16 = 464 < (1600 * 3) / 10 = 480
    let mut pts = block(0, 0, 10, 10);
    pts.extend(block(20, 0, 29, 1));
    let b = find_blobs(&pts, 256, 64);
    assert_eq!(b.len(), 1);
    assert_eq!(b[0].cells, 100);
    // 30 cells: 480 is not below 480
    let mut pts = block(0, 0, 10, 10);
    pts.extend(block(20, 0, 30, 1));
    let b = find_blobs(&pts, 256, 64);
    assert_eq!(b.len(), 2);
    assert_eq!(b[0].cells, 100);
    assert_eq!(b[1].cells, 30);
}

#[test]
fn find_blobs_keeps_only_two_largest() {
    let mut pts = block(0, 0, 5, 5); // 25
    pts.extend(block(10, 0, 6, 5)); // 30
    pts.extend(block(20, 0, 7, 5)); // 35
    let b = find_blobs(&pts, 256, 64);
    assert_eq!(b.len(), 2);
    assert_eq!(b[0].cells, 30);
    assert_eq!(b[1].cells, 35);
}

#[test]
fn find_blobs_tie_keeps_first_seed() {
    // three 5 x 5 blocks: the first two (by seed cell) win
    let mut pts = block(20, 0, 5, 5);
    pts.extend(block(0, 0, 5, 5));
    pts.extend(block(10, 10, 5, 5));
    let b = find_blobs(&pts, 256, 128);
    assert_eq!(b.len(), 2);
    assert_eq!(b[0].sum_x, 5 * (0 + 1 + 2 + 3 + 4));
    assert_eq!(b[1].sum_x, 5 * (20 + 21 + 22 + 23 + 24));
}

fn frame_rgb(w: u32, h: u32, f: impl Fn(u32, u32) -> [u8; 3]) -> Vec<u8> {
    let mut v = Vec::new();
    for y in 0..h {
        for x in 0..w {
            v.extend_from_slice(&f(x, y));
        }
    }
    v
}

#[test]
fn process_frame_mirrors_and_samples() {
    let (w, h) = (6u32, 5u32);
    let rgb = frame_rgb(w, h, |x, y| [x as u8 * 10, y as u8 * 10, 7]);
    let t = process_frame(&rgb, w, h, TrackTarget::Skin);
    assert_eq!((t.width, t.height, t.mask_w, t.mask_h), (6, 5, 2, 2));
    assert_eq!(t.frame.len(), (w * h * 4) as usize);
    for y in 0..h {
        for x in 0..w {
            let i = ((y * w + (w - 1 - x)) * 4) as usize;
            assert_eq!(t.frame[i], x as u8 * 10);
            assert_eq!(t.frame[i + 1], y as u8 * 10);
            assert_eq!(t.frame[i + 2], 7);
            assert_eq!(t.frame[i + 3], 255);
        }
    }
    assert_eq!(t.debug_mask, vec![false; 4]);
    assert!(t.blobs.is_empty());
}

#[test]
fn process_frame_mask_and_blob() {
    // 32 x 24 frame; an orange patch in the left 16 x 24 columns
    let (w, h) = (32u32, 24u32);
    let rgb = frame_rgb(w, h, |x, _| if x < 16 { [255, 140, 0] } else { [20, 20, 20] });
    let t = process_frame(&rgb, w, h, TrackTarget::OrangeBall);
    assert_eq!((t.mask_w, t.mask_h), (8, 6));
    // mirrored: orange sits in mask columns 4..8
    for cy in 0..6usize {
        for cx in 0..8usize {
            assert_eq!(t.debug_mask[cy * 8 + cx], cx >= 4, "{cx} {cy}");
        }
    }
    assert_eq!(t.blobs.len(), 1);
    assert_eq!(t.blobs[0].cells, 24);
    assert_eq!(t.blobs[0].sum_x, 6 * (4 + 5 + 6 + 7));
    assert_eq!(t.blobs[0].sum_y, 4 * (0 + 1 + 2 + 3 + 4 + 5));
}

#[test]
fn process_frame_samples_unmirrored_multiples_of_four() {
    // width 7: mask column 0 samples mirrored column 2, i.e. pixel column 4
    let (w, h) = (7u32, 4u32);
    let rgb = frame_rgb(w, h, |x, y| if x == 4 && y == 0 { [255, 140, 0] } else { [0, 0, 0] });
    let t = process_frame(&rgb, w, h, TrackTarget::OrangeBall);
    assert_eq!((t.mask_w, t.mask_h), (2, 1));
    assert_eq!(t.debug_mask, vec![true, false]);
    let rgb = frame_rgb(w, h, |x, y| if x == 0 && y == 0 { [255, 140, 0] } else { [0, 0, 0] });
    let t = process_frame(&rgb, w, h, TrackTarget::OrangeBall);
    assert_eq!(t.debug_mask, vec![false, true]);
}
