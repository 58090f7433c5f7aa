use nalgebra::Vector3;
use raytracer::{Image, ImageView, RenderTraget};

fn collect_tiles(image: &Image<Vector3<f32>>, w: u32, h: u32) -> Vec<ImageView> {
    let mut tiles = Vec::new();
    let mut it = image.split_tiles(w, h);
    while let Some(tile) = it.next() {
        tiles.push(tile);
    }
    tiles
}

#[test]
fn test_shit() {
    let mut image = Image::new(Vector3::<f32>::zeros(), 2, 2);
    let tiles = collect_tiles(&image, 1, 1);

    assert_eq!(tiles.len(), 4);
    tiles[0].fill(&mut image, Vector3::new(1.0, 0.0, 0.0));
    tiles[1].fill(&mut image, Vector3::new(0.0, 1.0, 0.0));
    tiles[2].fill(&mut image, Vector3::new(1.0, 1.0, 0.0));
    tiles[3].fill(&mut image, Vector3::new(0.0, 0.0, 1.0));

    assert_eq!(
        image.pixels,
        [
            Vector3::new(1.0, 0.0, 0.0),
            Vector3::new(0.0, 1.0, 0.0),
            Vector3::new(1.0, 1.0, 0.0),
            Vector3::new(0.0, 0.0, 1.0),
        ]
    );
}

#[test]
fn tiles_are_clipped_at_the_edges() {
    let image = Image::new(0u8, 5, 3);
    let mut tiles = Vec::new();
    let mut it = image.split_tiles(2, 2);
    while let Some(tile) = it.next() {
        tiles.push(tile);
    }
    // ceil(5 / 2) * ceil(3 / 2) tiles, row by row.
    assert_eq!(tiles.len(), 6);
    let shapes: Vec<(u32, u32, u32, u32)> = tiles.iter().map(|t| (t.offset_x, t.offset_y, t.width, t.height)).collect();
    assert_eq!(
        shapes,
        vec![(0, 0, 2, 2), (2, 0, 2, 2), (4, 0, 1, 2), (0, 2, 2, 1), (2, 2, 2, 1), (4, 2, 1, 1)]
    );
    assert!(it.next().is_none());
}

#[test]
fn tiles_cover_every_pixel_once() {
    let mut image = Image::new(0u32, 37, 23);
    let mut it = image.split_tiles(8, 5);
    let mut tiles = Vec::new();
    while let Some(tile) = it.next() {
        tiles.push(tile);
    }
    assert_eq!(tiles.len(), 5 * 5);
    for tile in &tiles {
        for i in 0..tile.height as usize {
            for j in 0..tile.width as usize {
                let v = tile.get(&image, [i, j]);
                tile.set(&mut image, [i, j], v + 1);
            }
        }
    }
    assert!(image.pixels.iter().all(|&count| count == 1));
}

#[test]
fn empty_image_has_no_tiles() {
    let image = Image::new(0u8, 0, 7);
    let mut it = image.split_tiles(4, 4);
    assert!(it.next().is_none());
    assert!(it.next().is_none());
}

#[test]
fn view_maps_into_the_source_buffer() {
    let mut image = Image::new(0i32, 4, 3);
    let view = image.view(1, 1, 2, 2);
    assert_eq!(view.index_of(&image, [0, 0]), 5);
    assert_eq!(view.index_of(&image, [1, 1]), 10);
    view.fill(&mut image, 7);
    assert_eq!(image.pixels, vec![0, 0, 0, 0, 0, 7, 7, 0, 0, 7, 7, 0]);
    assert_eq!(view.get_resolution(), (2, 2));
    assert_eq!(image.get_resolution(), (4, 3));
}

#[test]
fn image_get_set_and_fill() {
    let mut image = Image::new(1u8, 3, 2);
    assert_eq!(image.get_pixels().len(), 6);
    image.set([1, 2], 9);
    assert_eq!(image.get([1, 2]), 9);
    assert_eq!(image.pixels[5], 9);
    assert_eq!(image.get([0, 2]), 1);
    image.fill(4);
    assert!(image.pixels.iter().all(|&p| p == 4));
}
