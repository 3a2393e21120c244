//! End-to-end tests of the string-art engine: index mappings, both
//! rasterizers, the objective arithmetic, and the two selection algorithms
//! on small disks.

use string_art::disk::{Disk, Phase};
use string_art::indexing::{from_index_to_nails, from_nails_to_index, to_coordinates, to_pixel};
use string_art::raster::{get_line_pixels, raster_line_aa, raster_line_binary, BRIGHTNESS};
use string_art::residual::{eval_line, norm_sq_value, subtract_line};
use string_art::DiskError;

fn get_index(col: u32, row: u32) -> u32 {
    row * 7 + col
}

#[test]
fn test_pixel_line_diagonal() {
    assert_eq!(
        get_line_pixels((0, 0), (3, 3), 7),
        vec![get_index(0, 0), get_index(1, 1), get_index(2, 2), get_index(3, 3)]
    );
}

#[test]
fn test_pixel_line_horizontal() {
    assert_eq!(
        get_line_pixels((0, 0), (3, 0), 7),
        vec![get_index(0, 0), get_index(1, 0), get_index(2, 0), get_index(3, 0)]
    );
}

#[test]
fn test_pixel_line_single_point() {
    assert_eq!(get_line_pixels((2, 2), (2, 2), 7), vec![get_index(2, 2)]);
}

#[test]
fn test_pixel_index_round_trip() {
    for side in [1u32, 3, 7, 64] {
        for y in 0..side {
            for x in 0..side {
                let p = to_pixel(x, y, side);
                assert_eq!(to_coordinates(p, side), (x, y));
            }
        }
        for p in 0..side * side {
            let (x, y) = to_coordinates(p, side);
            assert_eq!(to_pixel(x, y, side), p);
        }
    }
}

#[test]
fn test_pair_index_values() {
    // With five nails the pairs are (0,1)..(0,4), (1,2)..(1,4), (2,3),
    // (2,4), (3,4), at positions 0..=9.
    assert_eq!(from_nails_to_index(0, 1, 5), 0);
    assert_eq!(from_nails_to_index(0, 4, 5), 3);
    assert_eq!(from_nails_to_index(1, 2, 5), 4);
    assert_eq!(from_nails_to_index(3, 4, 5), 9);
}

#[test]
fn test_pair_index_round_trip() {
    let n = 9u64;
    let mut k = 0u64;
    for a in 0..n {
        for b in (a + 1)..n {
            assert_eq!(from_nails_to_index(a, b, n), k);
            assert_eq!(from_index_to_nails(k, n), (a, b));
            k += 1;
        }
    }
    assert_eq!(k, n * (n - 1) / 2);
}

#[test]
fn test_binary_raster_symmetric() {
    let cases = [
        ((0, 0), (5, 2)),
        ((3, -1), (-4, 7)),
        ((0, 0), (0, 9)),
        ((2, 2), (2, 2)),
        ((-3, -3), (3, 3)),
    ];
    for (p0, p1) in cases {
        let mut fwd = raster_line_binary(p0, p1);
        let mut bwd = raster_line_binary(p1, p0);
        fwd.sort();
        bwd.sort();
        assert_eq!(fwd, bwd);
    }
}

#[test]
fn test_binary_raster_endpoints() {
    let fwd = raster_line_binary((1, 2), (9, 5));
    assert_eq!(fwd.first(), Some(&(1, 2)));
    assert_eq!(fwd.last(), Some(&(9, 5)));
    assert_eq!(fwd.len(), 9);
}

#[test]
fn test_aa_raster_diagonal_weights() {
    // A perfect diagonal passes through cell centers: the near pixel takes
    // the whole brightness, the far pixel nothing.
    let samples = raster_line_aa((0, 0), (2, 2));
    assert_eq!(samples.len(), 6);
    for t in 0..3 {
        assert_eq!(samples[2 * t], ((t as i32, t as i32), BRIGHTNESS));
        assert_eq!(samples[2 * t + 1].1, 0);
    }
}

#[test]
fn test_aa_raster_split_weights() {
    // From (0,0) to (3,6) the line is steep; each sample's two weights
    // split the brightness exactly.
    let samples = raster_line_aa((0, 0), (3, 6));
    assert_eq!(samples.len(), 14);
    for t in 0..7 {
        let (_, w_hi) = samples[2 * t];
        let (_, w_lo) = samples[2 * t + 1];
        assert_eq!(w_hi + w_lo, BRIGHTNESS);
    }
    let samples_rev = raster_line_aa((3, 6), (0, 0));
    assert_eq!(samples, samples_rev);
}

#[test]
fn test_objective_two_column_fixture() {
    // A two-pixel-wide, three-row canvas: two disjoint vertical line
    // masks, and a target covering the top of the first column.
    let col0: Vec<i64> = vec![1, 1, 1, 0, 0, 0];
    let col1: Vec<i64> = vec![0, 0, 0, 1, 1, 1];
    let target: Vec<i64> = vec![1, 1, 0, 0, 0, 0];

    // Drawing the first column explains the two set pixels and misses one:
    // squared residual norm 1.
    let mut residual = target.clone();
    subtract_line(&mut residual, &col0);
    assert_eq!(residual, vec![0, 0, -1, 0, 0, 0]);
    assert_eq!(norm_sq_value(&residual), 1);

    // The objective agrees: without the line 2, with it 1 — accepted.
    let (without0, with0) = eval_line(&target, &col0);
    assert_eq!(without0, 2);
    assert_eq!(with0, 1);
    assert!(with0 < without0);

    // The second column touches no target pixel: drawing it only hurts.
    let (without1, with1) = eval_line(&target, &col1);
    assert_eq!(without1, 0);
    assert_eq!(with1, 3);
    assert!(with1 >= without1);
}

#[test]
fn test_new_disk_geometry() {
    let disk = Disk::new().expect("default configuration must build");
    assert_eq!(disk.get_radius(), 512);
    assert_eq!(disk.get_center(), 512 + 48 + 16);
    assert!(disk.nail_count() > 2);
    assert!(disk.canvas_pixel_count() > 0);
    assert_eq!(disk.string_count(), 0);
    assert_eq!(disk.get_phase(), Phase::Idle);
    // Every nail sits on the tracing of the outer circle: within its
    // bounding box, and distinct nails exist.
    let n = disk.nail_count();
    let first = disk.nail_at(0).unwrap();
    let mut saw_other = false;
    for i in 0..n {
        let (x, y) = disk.nail_at(i).unwrap();
        assert!((0..=70).contains(&x) && (0..=70).contains(&y));
        if (x, y) != first {
            saw_other = true;
        }
    }
    assert!(saw_other);
}

#[test]
fn test_accessor_errors() {
    let disk = Disk::new().unwrap();
    assert_eq!(disk.nail_at(usize::MAX), Err(DiskError::IndexOutOfRange));
    assert_eq!(disk.canvas_at(usize::MAX), Err(DiskError::IndexOutOfRange));
    assert_eq!(disk.string_at(0), Err(DiskError::IndexOutOfRange));
    assert_eq!(disk.image_at(usize::MAX), Err(DiskError::IndexOutOfRange));
    assert_eq!(disk.residual_at(usize::MAX), Err(DiskError::IndexOutOfRange));
}

#[test]
fn test_set_pixel_size_zero_rejected() {
    let mut disk = Disk::new().unwrap();
    assert_eq!(disk.set_pixel_size(0), Err(DiskError::InvalidConfiguration));
    // The failed call leaves the configuration untouched.
    assert_eq!(disk.get_radius(), 512);
    assert!(disk.nail_count() > 2);
}

#[test]
fn test_set_pixel_size_rebuilds() {
    let mut disk = Disk::new().unwrap();
    let coarse_nails = {
        disk.set_pixel_size(64).unwrap();
        disk.nail_count()
    };
    let fine_nails = {
        disk.set_pixel_size(16).unwrap();
        disk.nail_count()
    };
    assert!(coarse_nails < fine_nails);
}

/// Snapshot of everything a geometry rebuild determines.
fn geometry_snapshot(disk: &Disk) -> (Vec<(i32, i32)>, Vec<(i32, i32)>, Vec<u8>, Vec<i64>) {
    let nails: Vec<(i32, i32)> = (0..disk.nail_count()).map(|i| disk.nail_at(i).unwrap()).collect();
    let canvas: Vec<(i32, i32)> =
        (0..disk.canvas_pixel_count()).map(|i| disk.canvas_at(i).unwrap()).collect();
    let image: Vec<u8> = (0..disk.canvas_pixel_count()).map(|i| disk.image_at(i).unwrap()).collect();
    let residual: Vec<i64> =
        (0..disk.canvas_pixel_count()).map(|i| disk.residual_at(i).unwrap()).collect();
    (nails, canvas, image, residual)
}

#[test]
fn test_resize_unchanged_configuration_is_identity() {
    let mut disk = Disk::new().unwrap();
    let before = geometry_snapshot(&disk);
    disk.resize().unwrap();
    assert_eq!(geometry_snapshot(&disk), before);
    // The nail coordinates stay inside the circle's bounding box.
    let c = 2 * ((512 + 48) / 16);
    for (x, y) in before.0 {
        assert!((0..=c).contains(&x) && (0..=c).contains(&y));
    }
}

#[test]
fn test_resize_during_walk_is_stale() {
    let mut disk = Disk::new().unwrap();
    disk.initialize_drawing_strings();
    assert_eq!(disk.get_phase(), Phase::Walking);
    assert_eq!(disk.resize(), Err(DiskError::GeometryStale));
    assert_eq!(disk.set_pixel_size(32), Err(DiskError::GeometryStale));
}

#[test]
fn test_load_target_length_mismatch() {
    let mut disk = Disk::new().unwrap();
    let wrong = vec![0u8; disk.canvas_pixel_count() + 1];
    assert_eq!(disk.load_target(&wrong), Err(DiskError::LengthMismatch));
}

#[test]
fn test_load_target_scales_residual() {
    let mut disk = Disk::new().unwrap();
    let mut target = vec![0u8; disk.canvas_pixel_count()];
    target[0] = 255;
    target[1] = 2;
    disk.load_target(&target).unwrap();
    assert_eq!(disk.image_at(0).unwrap(), 255);
    assert_eq!(disk.residual_at(0).unwrap(), 25500);
    assert_eq!(disk.residual_at(1).unwrap(), 200);
    assert_eq!(disk.residual_at(2).unwrap(), 0);
}

#[test]
fn test_process_pixels_length_mismatch() {
    let mut disk = Disk::new().unwrap();
    assert_eq!(disk.process_pixels(&vec![0u8; 17]), Err(DiskError::LengthMismatch));
}

#[test]
fn test_process_pixels_maps_grid() {
    let mut disk = Disk::new().unwrap();
    let mut bitmap = vec![0u8; 64 * 64];
    // The canvas disk is centered at (32, 32); mark its center cell.
    bitmap[32 * 64 + 32] = 200;
    disk.process_pixels(&bitmap).unwrap();
    let mut found = false;
    for i in 0..disk.canvas_pixel_count() {
        let (x, y) = disk.canvas_at(i).unwrap();
        let expected = if (x, y) == (32, 32) { 200 } else { 0 };
        if expected == 200 {
            found = true;
        }
        assert_eq!(disk.image_at(i).unwrap(), expected);
    }
    assert!(found);
}

#[test]
fn test_paint_marks_pixel() {
    let mut disk = Disk::new().unwrap();
    let (x, y) = disk.canvas_at(0).unwrap();
    disk.paint(x, y);
    assert_eq!(disk.image_at(0).unwrap(), 255);
    // Outside the canvas nothing happens.
    disk.paint(-1, -1);
    for i in 1..disk.canvas_pixel_count() {
        assert_eq!(disk.image_at(i).unwrap(), 0);
    }
}

#[test]
fn test_paint_region_round_brush() {
    let mut disk = Disk::new().unwrap();
    disk.paint_region(32, 32, 2);
    for i in 0..disk.canvas_pixel_count() {
        let (x, y) = disk.canvas_at(i).unwrap();
        let d2 = (x - 32) * (x - 32) + (y - 32) * (y - 32);
        let expected = if d2 <= 4 { 255 } else { 0 };
        assert_eq!(disk.image_at(i).unwrap(), expected);
    }
    // A zero radius paints exactly one pixel.
    let mut disk2 = Disk::new().unwrap();
    disk2.paint_region(32, 32, 0);
    let painted: usize = (0..disk2.canvas_pixel_count())
        .filter(|&i| disk2.image_at(i).unwrap() == 255)
        .count();
    assert_eq!(painted, 1);
}

#[test]
fn test_reset_clears_run() {
    let mut disk = Disk::new().unwrap();
    disk.initialize_drawing_strings();
    disk.reset();
    assert_eq!(disk.get_phase(), Phase::Idle);
    assert_eq!(disk.string_count(), 0);
    for i in 0..disk.canvas_pixel_count() {
        assert_eq!(disk.image_at(i).unwrap(), 255);
        assert_eq!(disk.residual_at(i).unwrap(), 0);
    }
}

/// Collects the accepted strings and checks there is no self pair and no
/// repeated unordered pair.
fn assert_strings_sound(disk: &Disk) {
    let mut seen = Vec::new();
    for i in 0..disk.string_count() {
        let (a, b) = disk.string_at(i).unwrap();
        assert_ne!(a, b, "self pair in string set");
        assert!(
            !seen.contains(&(a, b)) && !seen.contains(&(b, a)),
            "duplicate pair in string set"
        );
        assert!((a as usize) < disk.nail_count() && (b as usize) < disk.nail_count());
        seen.push((a, b));
    }
}

#[test]
fn test_walk_on_blank_target_finishes_at_once() {
    let mut disk = Disk::new().unwrap();
    disk.set_pixel_size(64).unwrap();
    disk.initialize_drawing_strings();
    disk.draw_strings();
    assert_eq!(disk.get_phase(), Phase::Done);
    assert_eq!(disk.string_count(), 0);
}

#[test]
fn test_walk_terminates_and_stays_done() {
    let mut disk = Disk::new().unwrap();
    disk.set_pixel_size(64).unwrap();
    // Darken a patch of the canvas so the walk has something to explain.
    let mut target = vec![0u8; disk.canvas_pixel_count()];
    for v in target.iter_mut().take(disk.canvas_pixel_count() / 2) {
        *v = 255;
    }
    disk.load_target(&target).unwrap();
    disk.initialize_drawing_strings();

    let pair_limit = disk.nail_count() * disk.nail_count();
    let mut calls = 0usize;
    while disk.get_phase() == Phase::Walking {
        disk.draw_strings();
        calls += 1;
        assert!(calls <= pair_limit, "walk failed to terminate");
    }
    assert_eq!(disk.get_phase(), Phase::Done);
    assert!(disk.string_count() > 0, "a dark target should accept some strings");
    assert_strings_sound(&disk);

    // Once done, further stepping is a no-op.
    let frozen = disk.string_count();
    disk.draw_strings();
    disk.draw_strings();
    assert_eq!(disk.get_phase(), Phase::Done);
    assert_eq!(disk.string_count(), frozen);
}

#[test]
fn test_walk_residual_norm_never_grows() {
    let mut disk = Disk::new().unwrap();
    disk.set_pixel_size(64).unwrap();
    let mut target = vec![0u8; disk.canvas_pixel_count()];
    for v in target.iter_mut().take(disk.canvas_pixel_count() / 3) {
        *v = 180;
    }
    disk.load_target(&target).unwrap();
    disk.initialize_drawing_strings();
    let mut prev = disk.residual_norm_sq();
    while disk.get_phase() == Phase::Walking {
        disk.draw_strings();
        let cur = disk.residual_norm_sq();
        assert!(cur <= prev, "residual norm grew during the walk");
        prev = cur;
    }
}

#[test]
fn test_exhaustive_scan_fixture() {
    let mut disk = Disk::new().unwrap();
    disk.set_pixel_size(64).unwrap();
    let mut target = vec![0u8; disk.canvas_pixel_count()];
    for v in target.iter_mut() {
        *v = 255;
    }
    disk.load_target(&target).unwrap();
    let before = disk.residual_norm_sq();
    disk.exhaustive_scan().unwrap();
    assert!(disk.string_count() > 0, "an all-black target should accept strings");
    assert_strings_sound(&disk);
    assert!(disk.residual_norm_sq() <= before);
    assert_eq!(disk.get_phase(), Phase::Idle);
}

#[test]
fn test_exhaustive_scan_during_walk_is_stale() {
    let mut disk = Disk::new().unwrap();
    disk.initialize_drawing_strings();
    assert_eq!(disk.exhaustive_scan(), Err(DiskError::GeometryStale));
}

#[test]
fn test_exhaustive_scan_blank_accepts_nothing() {
    let mut disk = Disk::new().unwrap();
    disk.set_pixel_size(64).unwrap();
    disk.exhaustive_scan().unwrap();
    assert_eq!(disk.string_count(), 0);
}

#[test]
fn test_set_start_nail() {
    let mut disk = Disk::new().unwrap();
    assert_eq!(disk.set_start_nail(usize::MAX), Err(DiskError::IndexOutOfRange));
    disk.set_start_nail(1).unwrap();
}

#[test]
fn test_binary_mode_selects_too() {
    let mut disk = Disk::new().unwrap();
    disk.set_pixel_size(64).unwrap();
    disk.set_antialias(false);
    let mut target = vec![0u8; disk.canvas_pixel_count()];
    for v in target.iter_mut() {
        *v = 255;
    }
    disk.load_target(&target).unwrap();
    disk.initialize_drawing_strings();
    disk.draw_strings();
    assert!(disk.string_count() > 0);
    assert_strings_sound(&disk);
}
