use raytracer::{CollisionReport, Image, RayIterator, RayTracer, RenderReport};

#[test]
fn samples_follow_rows_then_columns_then_rays() {
    let mut it = RayIterator::new(3, 1, 2, 2, 2);
    let mut got = Vec::new();
    while let Some(sample) = it.next() {
        got.push(sample);
    }
    assert_eq!(
        got,
        vec![
            ([1, 3], [0, 0]),
            ([1, 3], [0, 0]),
            ([1, 4], [0, 1]),
            ([1, 4], [0, 1]),
            ([2, 3], [1, 0]),
            ([2, 3], [1, 0]),
            ([2, 4], [1, 1]),
            ([2, 4], [1, 1]),
        ]
    );
    assert!(it.next().is_none());
}

#[test]
fn whole_image_sample_count() {
    let mut it = RayTracer::shoot_at((5, 3), 4);
    let mut count = 0;
    while it.next().is_some() {
        count += 1;
    }
    assert_eq!(count, 5 * 3 * 4);
}

#[test]
fn tile_samples_stay_in_the_tile() {
    let image = Image::new(0u8, 70, 40);
    let mut tiles = image.split_tiles(32, 32);
    let mut seen = vec![0u32; 70 * 40];
    while let Some(tile) = tiles.next() {
        let mut samples = RayTracer::shoot_at_tile(&tile, 1);
        while let Some((pixel, local)) = samples.next() {
            assert!(local[0] < tile.height as usize && local[1] < tile.width as usize);
            assert_eq!(pixel[0], tile.offset_y as usize + local[0]);
            assert_eq!(pixel[1], tile.offset_x as usize + local[1]);
            seen[pixel[0] * 70 + pixel[1]] += 1;
        }
    }
    assert!(seen.iter().all(|&n| n == 1));
}

#[test]
fn zero_width_window_has_no_samples() {
    let mut it = RayIterator::new(0, 0, 0, 5, 3);
    assert!(it.next().is_none());
}

#[test]
fn reports_add_up() {
    let a = CollisionReport { triangle_tests: 3, aabb_tests: 10 };
    let b = CollisionReport { triangle_tests: 4, aabb_tests: 1 };
    let c = a.combine(&b);
    assert_eq!(c, CollisionReport { triangle_tests: 7, aabb_tests: 11 });
    assert_eq!(CollisionReport::empty(), CollisionReport::default());
    let mut total = RenderReport::empty();
    total.accumulate(&a);
    total.accumulate(&b);
    assert_eq!(total, RenderReport { aabb_tests: 11, triangle_tests: 7 });
}

#[test]
fn report_sums_saturate() {
    let a = CollisionReport { triangle_tests: u64::MAX - 1, aabb_tests: 5 };
    let b = CollisionReport { triangle_tests: 3, aabb_tests: 6 };
    assert_eq!(a.combine(&b), CollisionReport { triangle_tests: u64::MAX, aabb_tests: 11 });
}
