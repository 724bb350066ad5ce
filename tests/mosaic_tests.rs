use mosaic::color_map::{Clustering, Palette};
use mosaic::tiles::TileIndex;
use mosaic::{average_color, combine_images, resize_and_extract_pixel_rows, Image, MosaicError, Rgb};

const TILE: usize = 140;

fn rgb(r: u8, g: u8, b: u8) -> Rgb {
    Rgb { r, g, b }
}

fn solid(c: Rgb, w: usize, h: usize) -> Image {
    let mut rows = Vec::new();
    for _ in 0..h {
        rows.push(vec![c; w]);
    }
    rows
}

#[test]
fn average_color_exact() {
    let rows = vec![
        vec![rgb(10, 20, 30), rgb(20, 30, 40)],
        vec![rgb(0, 0, 0), rgb(1, 1, 1)],
    ];
    assert_eq!(average_color(&rows), rgb(7, 12, 17));
}

#[test]
fn average_color_truncates() {
    let rows = vec![vec![rgb(1, 2, 3), rgb(2, 3, 4)]];
    assert_eq!(average_color(&rows), rgb(1, 2, 3));
}

#[test]
fn average_color_single_pixel_and_extremes() {
    assert_eq!(average_color(&vec![vec![rgb(255, 0, 128)]]), rgb(255, 0, 128));
    let rows = solid(rgb(255, 255, 255), 140, 140);
    assert_eq!(average_color(&rows), rgb(255, 255, 255));
}

#[test]
fn average_color_within_channel_bounds() {
    let rows = vec![
        vec![rgb(100, 5, 200), rgb(120, 9, 210)],
        vec![rgb(110, 7, 250)],
    ];
    let avg = average_color(&rows);
    assert!(100 <= avg.r && avg.r <= 120);
    assert!(5 <= avg.g && avg.g <= 9);
    assert!(200 <= avg.b && avg.b <= 250);
    assert_eq!(avg, rgb(110, 7, 220));
}

#[test]
fn combine_joins_rows_side_by_side() {
    let a = vec![vec![rgb(1, 0, 0), rgb(2, 0, 0)], vec![rgb(3, 0, 0), rgb(4, 0, 0)]];
    let b = vec![vec![rgb(5, 0, 0), rgb(6, 0, 0)], vec![rgb(7, 0, 0), rgb(8, 0, 0)]];
    let out = combine_images(vec![a, b]).unwrap();
    assert_eq!(
        out,
        vec![
            vec![rgb(1, 0, 0), rgb(2, 0, 0), rgb(5, 0, 0), rgb(6, 0, 0)],
            vec![rgb(3, 0, 0), rgb(4, 0, 0), rgb(7, 0, 0), rgb(8, 0, 0)],
        ]
    );
}

#[test]
fn combine_refuses_row_count_mismatch() {
    let a = solid(rgb(1, 1, 1), 2, 2);
    let b = solid(rgb(2, 2, 2), 2, 3);
    assert_eq!(combine_images(vec![a, b]), Err(MosaicError::DimensionMismatch));
}

#[test]
fn combine_refuses_width_mismatch() {
    let a = solid(rgb(1, 1, 1), 2, 2);
    let b = solid(rgb(2, 2, 2), 3, 2);
    assert_eq!(combine_images(vec![a, b]), Err(MosaicError::DimensionMismatch));
    let ragged = vec![vec![rgb(0, 0, 0), rgb(0, 0, 0)], vec![rgb(0, 0, 0)]];
    assert_eq!(combine_images(vec![ragged]), Err(MosaicError::DimensionMismatch));
}

#[test]
fn combine_refuses_no_tiles() {
    assert_eq!(combine_images(vec![]), Err(MosaicError::NoTiles));
}

#[test]
fn resize_gives_exact_dimensions() {
    let img = image::DynamicImage::ImageRgb8(image::RgbImage::from_pixel(3, 2, image::Rgb([1, 2, 3])));
    let rows = resize_and_extract_pixel_rows(img, 4, 5).unwrap();
    assert_eq!(rows.len(), 5);
    for row in &rows {
        assert_eq!(row.len(), 4);
        for p in row {
            assert_eq!(*p, rgb(1, 2, 3));
        }
    }
}

#[test]
fn pick_better_prefers_strictly_lower_score() {
    let low = || Clustering { score: 1.0f32.to_bits(), centroids: vec![] };
    let high = || Clustering { score: 2.0f32.to_bits(), centroids: vec![] };
    assert_eq!(mosaic::color_map::pick_better(high(), low()).score, 1.0f32.to_bits());
    assert_eq!(mosaic::color_map::pick_better(low(), high()).score, 1.0f32.to_bits());
    let same = Clustering { score: 1.0f32.to_bits(), centroids: vec![] };
    let kept = mosaic::color_map::pick_better(Clustering { score: 1.0f32.to_bits(), centroids: vec![] }, same);
    assert_eq!(kept.score, 1.0f32.to_bits());
}

#[test]
fn palette_size_is_bounded() {
    let pixels = vec![rgb(255, 0, 0), rgb(0, 255, 0), rgb(0, 0, 255), rgb(255, 255, 255)];
    let p = Palette::from_seed(&pixels, 2, 7);
    assert!(p.len() >= 1 && p.len() <= 2);
    let q = Palette::new(&pixels, 3).unwrap();
    assert!(q.len() >= 1 && q.len() <= 3);
}

#[test]
fn palette_from_one_color_has_one_centroid() {
    let pixels = vec![rgb(10, 200, 30); 5];
    let p = Palette::from_seed(&pixels, 4, 1);
    assert_eq!(p.len(), 1);
}

#[test]
fn classification_is_idempotent_on_centroid_colors() {
    let pixels = vec![rgb(255, 0, 0), rgb(0, 255, 0)];
    let p = Palette::from_seed(&pixels, 2, 3);
    for c in &pixels {
        let rep = p.map(c).unwrap();
        assert_eq!(p.map(&rep), Some(rep));
    }
    assert_ne!(p.map(&pixels[0]), p.map(&pixels[1]));
}

#[test]
fn nearest_index_is_deterministic() {
    let pixels = vec![rgb(255, 0, 0), rgb(0, 255, 0), rgb(0, 0, 255)];
    let p = Palette::from_seed(&pixels, 3, 11);
    for c in [rgb(200, 10, 10), rgb(1, 2, 3), rgb(90, 90, 250)] {
        let first = p.index_of(&c);
        assert_eq!(first, p.index_of(&c));
        assert!(first < p.len());
    }
}

#[test]
fn lookup_past_the_end_is_none() {
    let p = Palette::from_seed(&vec![rgb(1, 2, 3)], 1, 0);
    assert!(p.lookup(0).is_some());
    assert_eq!(p.lookup(1), None);
    assert!(p.has_lookup());
}

#[test]
fn map_mut_replaces_color() {
    let pixels = vec![rgb(255, 0, 0), rgb(0, 0, 255)];
    let p = Palette::from_seed(&pixels, 2, 5);
    let mut c = rgb(250, 5, 5);
    p.map_mut(&mut c);
    assert_eq!(Some(c), p.map(&rgb(250, 5, 5)));
    let mut d = rgb(0, 0, 250);
    p.map_color(&mut d);
    assert_eq!(Some(d), p.map(&rgb(0, 0, 250)));
}

#[test]
fn shrink_to_one_of_five_centroids() {
    let pixels = vec![
        rgb(255, 0, 0),
        rgb(0, 255, 0),
        rgb(0, 0, 255),
        rgb(255, 255, 255),
        rgb(0, 0, 0),
    ];
    let mut p = Palette::from_seed(&pixels, 5, 42);
    assert_eq!(p.len(), 5);
    let before = p.map(&rgb(0, 0, 255)).unwrap();
    p.shrink(vec![rgb(0, 0, 255)]);
    assert_eq!(p.len(), 1);
    assert_eq!(p.map(&rgb(0, 0, 255)), Some(before));
    assert_eq!(p.map(&rgb(255, 0, 0)), Some(before));
}

#[test]
fn shrink_keeps_classification_of_given_colors() {
    let pixels = vec![rgb(255, 0, 0), rgb(0, 255, 0), rgb(0, 0, 255), rgb(0, 0, 0)];
    let mut p = Palette::from_seed(&pixels, 4, 9);
    let n = p.len();
    let keep = vec![rgb(250, 3, 3), rgb(2, 2, 240)];
    let before: Vec<_> = keep.iter().map(|c| p.map(c)).collect();
    p.shrink(keep.clone());
    assert!(p.len() <= n);
    let after: Vec<_> = keep.iter().map(|c| p.map(c)).collect();
    assert_eq!(before, after);
}

#[test]
fn shrink_to_nothing_empties_palette() {
    let mut p = Palette::from_seed(&vec![rgb(1, 1, 1), rgb(200, 200, 200)], 2, 2);
    p.shrink(vec![]);
    assert_eq!(p.len(), 0);
    assert_eq!(p.map(&rgb(1, 1, 1)), None);
    let mut c = rgb(9, 9, 9);
    p.map_mut(&mut c);
    assert_eq!(c, rgb(9, 9, 9));
}

#[test]
fn tiles_are_bucketed_by_palette_color() {
    let red = rgb(255, 0, 0);
    let green = rgb(0, 255, 0);
    let p = Palette::from_seed(&vec![red, green], 2, 1);
    let mut index = TileIndex::new();
    index.add_tile(&p, solid(red, 4, 4));
    index.add_tile(&p, solid(rgb(250, 4, 4), 4, 4));
    index.add_tile(&p, solid(green, 4, 4));
    let colors = index.colors();
    assert_eq!(colors.len(), 2);
    for c in &colors {
        assert!(*c == p.map(&red).unwrap() || *c == p.map(&green).unwrap());
    }
    assert_eq!(index.get(&p.map(&red).unwrap()).unwrap().len(), 2);
    assert_eq!(index.get(&p.map(&green).unwrap()).unwrap().len(), 1);
}

#[test]
fn add_image_resizes_and_files_tile() {
    let red = rgb(255, 0, 0);
    let p = Palette::from_seed(&vec![red, rgb(0, 0, 255)], 2, 4);
    let mut index = TileIndex::new();
    let img = image::DynamicImage::ImageRgb8(image::RgbImage::from_pixel(7, 3, image::Rgb([255, 0, 0])));
    index.add_image(&p, img, 8);
    let bucket = index.get(&p.map(&red).unwrap()).unwrap();
    assert_eq!(bucket.len(), 1);
    assert_eq!(bucket[0].len(), 8);
    assert_eq!(bucket[0][0].len(), 8);
}

#[test]
fn end_to_end_two_pixel_mosaic() {
    let red = rgb(255, 0, 0);
    let green = rgb(0, 255, 0);
    let source = vec![red, green];
    let mut p = Palette::from_seed(&source, 2, 17);
    let mut index = TileIndex::new();
    index.add_tile(&p, solid(red, TILE, TILE));
    index.add_tile(&p, solid(green, TILE, TILE));
    p.shrink(index.colors());
    let out = index.assemble_row(&p, &source).unwrap();
    assert_eq!(out.len(), TILE);
    for row in &out {
        assert_eq!(row.len(), 2 * TILE);
        assert!(row[..TILE].iter().all(|c| *c == red));
        assert!(row[TILE..].iter().all(|c| *c == green));
    }
}

#[test]
fn assemble_with_draws_picks_tile_modulo_bucket() {
    let red = rgb(255, 0, 0);
    let p = Palette::from_seed(&vec![red], 1, 0);
    let mut index = TileIndex::new();
    let a = vec![vec![rgb(250, 0, 0)]];
    let b = vec![vec![rgb(251, 0, 0)]];
    index.add_tile(&p, a.clone());
    index.add_tile(&p, b.clone());
    let out = index.assemble_row_with(&p, &vec![red, red, red], &vec![0, 1, 2]).unwrap();
    assert_eq!(out, vec![vec![rgb(250, 0, 0), rgb(251, 0, 0), rgb(250, 0, 0)]]);
}

#[test]
fn empty_index_fails_on_first_pixel() {
    let p = Palette::from_seed(&vec![rgb(255, 0, 0), rgb(0, 255, 0)], 2, 8);
    let index = TileIndex::new();
    assert!(index.colors().is_empty());
    assert_eq!(index.assemble_row(&p, &vec![rgb(255, 0, 0)]), Err(MosaicError::UnmappedPixel));
}

#[test]
fn unmapped_color_fails_row() {
    let red = rgb(255, 0, 0);
    let blue = rgb(0, 0, 255);
    let p = Palette::from_seed(&vec![red, blue], 2, 6);
    let mut index = TileIndex::new();
    index.add_tile(&p, solid(red, 2, 2));
    assert_eq!(index.assemble_row(&p, &vec![red, blue]), Err(MosaicError::UnmappedPixel));
    assert!(index.assemble_row(&p, &vec![red, red]).is_ok());
    assert_eq!(index.assemble_row(&p, &vec![]), Err(MosaicError::NoTiles));
}
