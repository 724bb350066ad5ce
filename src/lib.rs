//! Photo mosaics: a source image is quantized onto a small palette, and every
//! pixel is replaced by a tile image whose average color maps to the same
//! palette entry.

pub mod color_map;
pub mod tiles;

use vstd::prelude::*;

verus! {

/// An 8-bit-per-channel color; two colors are the same only when all three
/// channels match.
#[derive(Clone, Copy, Debug, PartialEq, Eq, Hash, Structural)]
pub struct Rgb {
    pub r: u8,
    pub g: u8,
    pub b: u8,
}

pub type ImageRow = Vec<Rgb>;

/// A grid of pixels, row by row.
pub type Image = Vec<ImageRow>;

/// Why a mosaic could not be put together.
#[derive(Clone, Copy, Debug, PartialEq, Eq, Structural)]
pub enum MosaicError {
    /// There were no tiles to combine.
    NoTiles,
    /// The tiles to combine differ in row count or row width.
    DimensionMismatch,
    /// A pixel's palette color has no tile.
    UnmappedPixel,
    /// The system's random source failed while drawing tiles.
    NoRandomness,
}

/// Channel `ch` (0 red, 1 green, 2 blue) of a color.
pub open spec fn channel(c: Rgb, ch: int) -> nat {
    if ch == 0 {
        c.r as nat
    } else if ch == 1 {
        c.g as nat
    } else {
        c.b as nat
    }
}

/// Sum of channel `ch` over one row.
pub open spec fn row_sum(row: Seq<Rgb>, ch: int) -> nat
    decreases row.len(),
{
    if row.len() == 0 {
        0
    } else {
        row_sum(row.drop_last(), ch) + channel(row.last(), ch)
    }
}

/// Sum of channel `ch` over every pixel of an image.
pub open spec fn grid_sum(rows: Seq<ImageRow>, ch: int) -> nat
    decreases rows.len(),
{
    if rows.len() == 0 {
        0
    } else {
        grid_sum(rows.drop_last(), ch) + row_sum(rows.last()@, ch)
    }
}

/// Number of pixels of an image.
pub open spec fn pixel_count(rows: Seq<ImageRow>) -> nat
    decreases rows.len(),
{
    if rows.len() == 0 {
        0
    } else {
        pixel_count(rows.drop_last()) + rows.last()@.len()
    }
}

/// The per-channel mean of an image, each channel truncated toward zero.
pub open spec fn mean_color(rows: Seq<ImageRow>) -> Rgb
    recommends
        pixel_count(rows) > 0,
{
    Rgb {
        r: (grid_sum(rows, 0) / pixel_count(rows)) as u8,
        g: (grid_sum(rows, 1) / pixel_count(rows)) as u8,
        b: (grid_sum(rows, 2) / pixel_count(rows)) as u8,
    }
}

/// Every pixel of `row` has channel `ch` within `[lo, hi]`.
pub open spec fn row_within(row: Seq<Rgb>, ch: int, lo: nat, hi: nat) -> bool {
    forall|j: int| 0 <= j < row.len() ==> lo <= #[trigger] channel(row[j], ch) <= hi
}

/// Every pixel of `rows` has channel `ch` within `[lo, hi]`.
pub open spec fn grid_within(rows: Seq<ImageRow>, ch: int, lo: nat, hi: nat) -> bool {
    forall|i: int| 0 <= i < rows.len() ==> row_within(#[trigger] rows[i]@, ch, lo, hi)
}

proof fn lemma_row_sum_bounds(row: Seq<Rgb>, ch: int, lo: nat, hi: nat)
    requires
        row_within(row, ch, lo, hi),
    ensures
        lo * row.len() <= row_sum(row, ch) <= hi * row.len(),
    decreases row.len(),
{
    if row.len() > 0 {
        let init = row.drop_last();
        assert(row_within(init, ch, lo, hi)) by {
            assert forall|j: int| 0 <= j < init.len() implies lo <= #[trigger] channel(init[j], ch)
                <= hi by {
                assert(init[j] == row[j]);
            }
        }
        lemma_row_sum_bounds(init, ch, lo, hi);
        assert(lo <= channel(row[row.len() - 1], ch) <= hi);
        assert(row_sum(row, ch) == row_sum(init, ch) + channel(row.last(), ch));
        assert(lo * row.len() == lo * init.len() + lo) by (nonlinear_arith)
            requires
                row.len() == init.len() + 1,
        ;
        assert(hi * row.len() == hi * init.len() + hi) by (nonlinear_arith)
            requires
                row.len() == init.len() + 1,
        ;
    } else {
        assert(lo * 0 == 0 && hi * 0 == 0) by (nonlinear_arith);
    }
}

proof fn lemma_grid_sum_bounds(rows: Seq<ImageRow>, ch: int, lo: nat, hi: nat)
    requires
        grid_within(rows, ch, lo, hi),
    ensures
        lo * pixel_count(rows) <= grid_sum(rows, ch) <= hi * pixel_count(rows),
    decreases rows.len(),
{
    if rows.len() > 0 {
        let init = rows.drop_last();
        assert(grid_within(init, ch, lo, hi)) by {
            assert forall|i: int| 0 <= i < init.len() implies row_within(
                #[trigger] init[i]@,
                ch,
                lo,
                hi,
            ) by {
                assert(init[i] == rows[i]);
            }
        }
        lemma_grid_sum_bounds(init, ch, lo, hi);
        assert(row_within(rows[rows.len() - 1]@, ch, lo, hi));
        lemma_row_sum_bounds(rows.last()@, ch, lo, hi);
        assert(grid_sum(rows, ch) == grid_sum(init, ch) + row_sum(rows.last()@, ch));
        assert(pixel_count(rows) == pixel_count(init) + rows.last()@.len());
        let a = pixel_count(init);
        let b = rows.last()@.len();
        assert(lo * (a + b) == lo * a + lo * b) by (nonlinear_arith);
        assert(hi * (a + b) == hi * a + hi * b) by (nonlinear_arith);
    } else {
        assert(lo * 0 == 0 && hi * 0 == 0) by (nonlinear_arith);
    }
}

proof fn lemma_grid_sum_max(rows: Seq<ImageRow>, ch: int)
    ensures
        grid_sum(rows, ch) <= 255 * pixel_count(rows),
{
    assert(grid_within(rows, ch, 0, 255)) by {
        assert forall|i: int| 0 <= i < rows.len() implies row_within(
            #[trigger] rows[i]@,
            ch,
            0,
            255,
        ) by {
            assert forall|j: int| 0 <= j < rows[i]@.len() implies 0 <= #[trigger] channel(
                rows[i]@[j],
                ch,
            ) <= 255 by {}
        }
    }
    lemma_grid_sum_bounds(rows, ch, 0, 255);
}

/// Each channel of an image's average color lies between the smallest and the
/// largest value of that channel among its pixels: whatever bounds hold for
/// every pixel hold for the average.
pub proof fn average_color_within_bounds(rows: Seq<ImageRow>, ch: int, lo: nat, hi: nat)
    requires
        pixel_count(rows) > 0,
        grid_within(rows, ch, lo, hi),
    ensures
        lo <= grid_sum(rows, ch) / pixel_count(rows) <= hi,
{
    lemma_grid_sum_bounds(rows, ch, lo, hi);
    let n = pixel_count(rows);
    let s = grid_sum(rows, ch);
    assert(lo <= s / n) by (nonlinear_arith)
        requires
            lo * n <= s,
            n > 0,
    ;
    assert(s / n <= hi) by (nonlinear_arith)
        requires
            s <= hi * n,
            n > 0,
    ;
}

/// An image whose rows all have `w` pixels has `w` pixels per row in all.
pub proof fn lemma_pixel_count_uniform(rows: Seq<ImageRow>, w: nat)
    requires
        forall|i: int| 0 <= i < rows.len() ==> (#[trigger] rows[i])@.len() == w,
    ensures
        pixel_count(rows) == rows.len() * w,
    decreases rows.len(),
{
    if rows.len() > 0 {
        let init = rows.drop_last();
        assert forall|i: int| 0 <= i < init.len() implies (#[trigger] init[i])@.len() == w by {
            assert(init[i] == rows[i]);
        }
        lemma_pixel_count_uniform(init, w);
        assert(rows.last() == rows[rows.len() - 1]);
        assert(rows.len() * w == init.len() * w + w) by (nonlinear_arith)
            requires
                rows.len() == init.len() + 1,
        ;
    } else {
        assert(rows.len() * w == 0) by (nonlinear_arith)
            requires
                rows.len() == 0,
        ;
    }
}

#[verifier::external_type_specification]
#[verifier::external_body]
pub struct ExDynamicImage(image::DynamicImage);

/// Relies on image's `DynamicImage::resize_exact`, which samples into a new
/// buffer of exactly `width` by `height` pixels, on `to_rgb8`, which keeps the
/// dimensions, and on `rows`, which walks them top to bottom.
#[verifier::external_body]
fn resize_nearest(image: image::DynamicImage, width: u32, height: u32) -> (rows: Image)
    requires
        width > 0,
        height > 0,
    ensures
        rows@.len() == height,
        forall|r: int| 0 <= r < rows@.len() ==> (#[trigger] rows@[r])@.len() == width,
{
    let image = image.resize_exact(width, height, image::imageops::FilterType::Nearest).to_rgb8();
    image
        .rows()
        .map(|row| row.map(|p| Rgb { r: p.0[0], g: p.0[1], b: p.0[2] }).collect::<ImageRow>())
        .collect::<Image>()
}

/// Resizes an image to exactly `width` by `height` pixels by nearest-neighbour
/// sampling and returns its rows.
pub fn resize_and_extract_pixel_rows(image: image::DynamicImage, width: u32, height: u32) -> (res:
    Result<Image, String>)
    requires
        width > 0,
        height > 0,
    ensures
        match res {
            Ok(rows) => {
                &&& rows@.len() == height
                &&& forall|r: int| 0 <= r < rows@.len() ==> (#[trigger] rows@[r])@.len() == width
                &&& pixel_count(rows@) == height * width
            },
            Err(_) => false,
        },
{
    let rows = resize_nearest(image, width, height);
    proof {
        lemma_pixel_count_uniform(rows@, width as nat);
    }
    Ok(rows)
}

/// Per-channel integer mean over every pixel of a tile, truncated toward zero.
pub fn average_color(pixel_rows: &Image) -> (r: Rgb)
    requires
        0 < pixel_count(pixel_rows@) <= u32::MAX,
    ensures
        r == mean_color(pixel_rows@),
{
    let mut red: u64 = 0;
    let mut green: u64 = 0;
    let mut blue: u64 = 0;
    let mut count: u64 = 0;
    let mut i: usize = 0;
    proof {
        lemma_prefix_monotone(pixel_rows@, 0);
    }
    while i < pixel_rows.len()
        invariant
            i <= pixel_rows@.len(),
            pixel_count(pixel_rows@) <= u32::MAX,
            red == grid_sum(pixel_rows@.subrange(0, i as int), 0),
            green == grid_sum(pixel_rows@.subrange(0, i as int), 1),
            blue == grid_sum(pixel_rows@.subrange(0, i as int), 2),
            count == pixel_count(pixel_rows@.subrange(0, i as int)),
            count <= pixel_count(pixel_rows@),
        decreases pixel_rows@.len() - i,
    {
        let row = &pixel_rows[i];
        let ghost done = pixel_rows@.subrange(0, i as int);
        let ghost next = pixel_rows@.subrange(0, i as int + 1);
        proof {
            assert(next.drop_last() =~= done);
            assert(next.last() == pixel_rows@[i as int]);
            lemma_prefix_monotone(pixel_rows@, i as int + 1);
            lemma_grid_sum_max(next, 0);
            lemma_grid_sum_max(next, 1);
            lemma_grid_sum_max(next, 2);
            assert(grid_sum(next, 0) == grid_sum(done, 0) + row_sum(row@, 0));
            assert(grid_sum(next, 1) == grid_sum(done, 1) + row_sum(row@, 1));
            assert(grid_sum(next, 2) == grid_sum(done, 2) + row_sum(row@, 2));
            assert(pixel_count(next) == pixel_count(done) + row@.len());
        }
        let mut j: usize = 0;
        while j < row.len()
            invariant
                j <= row@.len(),
                row == pixel_rows@[i as int],
                next.drop_last() == done,
                next.last() == *row,
                grid_sum(next, 0) == grid_sum(done, 0) + row_sum(row@, 0),
                grid_sum(next, 1) == grid_sum(done, 1) + row_sum(row@, 1),
                grid_sum(next, 2) == grid_sum(done, 2) + row_sum(row@, 2),
                pixel_count(next) == pixel_count(done) + row@.len(),
                pixel_count(next) <= u32::MAX,
                grid_sum(next, 0) <= 255 * pixel_count(next),
                grid_sum(next, 1) <= 255 * pixel_count(next),
                grid_sum(next, 2) <= 255 * pixel_count(next),
                red == grid_sum(done, 0) + row_sum(row@.subrange(0, j as int), 0),
                green == grid_sum(done, 1) + row_sum(row@.subrange(0, j as int), 1),
                blue == grid_sum(done, 2) + row_sum(row@.subrange(0, j as int), 2),
                count == pixel_count(done) + j,
            decreases row@.len() - j,
        {
            let p = row[j];
            proof {
                let pre = row@.subrange(0, j as int);
                let post = row@.subrange(0, j as int + 1);
                assert(post.drop_last() =~= pre);
                assert(post.last() == p);
                lemma_row_sum_prefix(row@, j as int + 1, 0);
                lemma_row_sum_prefix(row@, j as int + 1, 1);
                lemma_row_sum_prefix(row@, j as int + 1, 2);
                assert(row_sum(post, 0) == row_sum(pre, 0) + p.r);
                assert(row_sum(post, 1) == row_sum(pre, 1) + p.g);
                assert(row_sum(post, 2) == row_sum(pre, 2) + p.b);
                assert(255 * pixel_count(next) <= 255 * 0xffff_ffffnat) by (nonlinear_arith)
                    requires
                        pixel_count(next) <= 0xffff_ffffnat,
                ;
            }
            red = red + p.r as u64;
            green = green + p.g as u64;
            blue = blue + p.b as u64;
            count = count + 1;
            j = j + 1;
        }
        proof {
            assert(row@.subrange(0, j as int) =~= row@);
        }
        i = i + 1;
    }
    proof {
        assert(pixel_rows@.subrange(0, i as int) =~= pixel_rows@);
    }
    Rgb { r: (red / count) as u8, g: (green / count) as u8, b: (blue / count) as u8 }
}

proof fn lemma_row_sum_prefix(row: Seq<Rgb>, k: int, ch: int)
    requires
        0 <= k <= row.len(),
    ensures
        row_sum(row.subrange(0, k), ch) <= row_sum(row, ch),
    decreases row.len(),
{
    if k < row.len() {
        assert(row.drop_last().subrange(0, k) =~= row.subrange(0, k));
        lemma_row_sum_prefix(row.drop_last(), k, ch);
    } else {
        assert(row.subrange(0, k) =~= row);
    }
}

proof fn lemma_prefix_monotone(rows: Seq<ImageRow>, k: int)
    requires
        0 <= k <= rows.len(),
    ensures
        pixel_count(rows.subrange(0, k)) <= pixel_count(rows),
    decreases rows.len(),
{
    if k < rows.len() {
        assert(rows.drop_last().subrange(0, k) =~= rows.subrange(0, k));
        lemma_prefix_monotone(rows.drop_last(), k);
    } else {
        assert(rows.subrange(0, k) =~= rows);
    }
}

/// The pixels of an image, row by row.
pub open spec fn pixels(img: Image) -> Seq<Seq<Rgb>> {
    img@.map_values(|row: ImageRow| row@)
}

/// The pixels of each of several images.
pub open spec fn tile_pixels(images: Seq<Image>) -> Seq<Seq<Seq<Rgb>>> {
    images.map_values(|img: Image| pixels(img))
}

/// Row width of the first tile, or zero when it has no rows.
pub open spec fn first_width(tiles: Seq<Seq<Seq<Rgb>>>) -> nat {
    if tiles.len() > 0 && tiles[0].len() > 0 {
        tiles[0][0].len()
    } else {
        0
    }
}

/// All tiles have the row count and the row width of the first one.
pub open spec fn same_dimensions(tiles: Seq<Seq<Seq<Rgb>>>) -> bool {
    &&& forall|t: int| 0 <= t < tiles.len() ==> (#[trigger] tiles[t]).len() == tiles[0].len()
    &&& forall|t: int, r: int|
        0 <= t < tiles.len() && 0 <= r < tiles[t].len() ==> (#[trigger] tiles[t][r]).len()
            == first_width(tiles)
}

/// Row `r` of every tile, one after another.
pub open spec fn joined_row(tiles: Seq<Seq<Seq<Rgb>>>, r: int) -> Seq<Rgb>
    decreases tiles.len(),
{
    if tiles.len() == 0 {
        seq![]
    } else {
        joined_row(tiles.drop_last(), r) + tiles.last()[r]
    }
}

/// What combining tiles gives: their rows joined side by side, or why they
/// cannot be combined.
pub open spec fn combined(tiles: Seq<Seq<Seq<Rgb>>>) -> Result<Seq<Seq<Rgb>>, MosaicError> {
    if tiles.len() == 0 {
        Err(MosaicError::NoTiles)
    } else if !same_dimensions(tiles) {
        Err(MosaicError::DimensionMismatch)
    } else {
        Ok(Seq::new(tiles[0].len(), |r: int| joined_row(tiles, r)))
    }
}

/// The pixels of a result image, or its error.
pub open spec fn result_pixels(res: Result<Image, MosaicError>) -> Result<Seq<Seq<Rgb>>, MosaicError> {
    match res {
        Ok(img) => Ok(pixels(img)),
        Err(e) => Err(e),
    }
}

fn check_dimensions(images: &Vec<Image>) -> (ok: bool)
    requires
        images@.len() > 0,
    ensures
        ok == same_dimensions(tile_pixels(images@)),
{
    let rows = images[0].len();
    let width: usize = if rows > 0 { images[0][0].len() } else { 0 };
    let mut t: usize = 0;
    while t < images.len()
        invariant
            images@.len() > 0,
            rows == images@[0]@.len(),
            width == first_width(tile_pixels(images@)),
            t <= images@.len(),
            forall|u: int| 0 <= u < t ==> (#[trigger] images@[u])@.len() == rows,
            forall|u: int, r: int|
                0 <= u < t && 0 <= r < images@[u]@.len() ==> (#[trigger] images@[u]@[r])@.len()
                    == width,
        decreases images@.len() - t,
    {
        if images[t].len() != rows {
            assert(tile_pixels(images@)[t as int].len() != tile_pixels(images@)[0].len());
            return false;
        }
        let mut r: usize = 0;
        while r < images[t].len()
            invariant
                t < images@.len(),
                images@[t as int]@.len() == rows,
                width == first_width(tile_pixels(images@)),
                r <= rows,
                forall|q: int| 0 <= q < r ==> (#[trigger] images@[t as int]@[q])@.len() == width,
            decreases rows - r,
        {
            if images[t][r].len() != width {
                assert(tile_pixels(images@)[t as int][r as int].len() != first_width(
                    tile_pixels(images@),
                ));
                return false;
            }
            r = r + 1;
        }
        t = t + 1;
    }
    proof {
        let g = tile_pixels(images@);
        assert forall|u: int| 0 <= u < g.len() implies (#[trigger] g[u]).len() == g[0].len() by {
            assert(images@[u]@.len() == rows);
        }
        assert forall|u: int, r: int| 0 <= u < g.len() && 0 <= r < g[u].len() implies (
        #[trigger] g[u][r]).len() == first_width(g) by {
            assert(images@[u]@[r]@.len() == width);
        }
    }
    true
}

/// Joins tiles side by side: row `r` of the result is row `r` of every tile in
/// turn. Tiles that differ in row count or row width are refused.
pub fn combine_images(images: Vec<Image>) -> (res: Result<Image, MosaicError>)
    ensures
        result_pixels(res) == combined(tile_pixels(images@)),
        images@.len() == 0 <==> res == Err::<Image, MosaicError>(MosaicError::NoTiles),
        images@.len() > 0 && !same_dimensions(tile_pixels(images@)) <==> res == Err::<Image, MosaicError>(
            MosaicError::DimensionMismatch,
        ),
        match res {
            Ok(out) => {
                &&& images@.len() > 0
                &&& same_dimensions(tile_pixels(images@))
                &&& pixels(out).len() == pixels(images@[0]).len()
                &&& forall|r: int|
                    0 <= r < pixels(out).len() ==> #[trigger] pixels(out)[r] == joined_row(
                        tile_pixels(images@),
                        r,
                    )
            },
            Err(_) => true,
        },
{
    if images.len() == 0 {
        return Err(MosaicError::NoTiles);
    }
    if !check_dimensions(&images) {
        return Err(MosaicError::DimensionMismatch);
    }
    let row_count = images[0].len();
    let mut combined: Image = Vec::new();
    let mut row: usize = 0;
    while row < row_count
        invariant
            images@.len() > 0,
            same_dimensions(tile_pixels(images@)),
            row_count == images@[0]@.len(),
            row <= row_count,
            combined@.len() == row,
            forall|q: int| 0 <= q < row ==> (#[trigger] combined@[q])@ == joined_row(tile_pixels(images@), q),
        decreases row_count - row,
    {
        let mut combined_row: ImageRow = Vec::new();
        let mut t: usize = 0;
        proof {
            assert(images@.subrange(0, 0) =~= Seq::<Image>::empty());
        }
        while t < images.len()
            invariant
                images@.len() > 0,
                same_dimensions(tile_pixels(images@)),
                row_count == images@[0]@.len(),
                row < row_count,
                t <= images@.len(),
                combined_row@ == joined_row(tile_pixels(images@.subrange(0, t as int)), row as int),
            decreases images@.len() - t,
        {
            let tile = &images[t];
            assert(tile_pixels(images@)[t as int].len() == row_count);
            let src = &tile[row];
            let ghost before = combined_row@;
            let mut j: usize = 0;
            while j < src.len()
                invariant
                    j <= src@.len(),
                    combined_row@ == before + src@.subrange(0, j as int),
                decreases src@.len() - j,
            {
                combined_row.push(src[j]);
                proof {
                    assert(before + src@.subrange(0, j as int + 1) =~= (before + src@.subrange(
                        0,
                        j as int,
                    )).push(src@[j as int]));
                }
                j = j + 1;
            }
            proof {
                let next = tile_pixels(images@.subrange(0, t as int + 1));
                assert(next.drop_last() =~= tile_pixels(images@.subrange(0, t as int)));
                assert(src@.subrange(0, j as int) =~= src@);
                assert(next.last() == pixels(images@[t as int]));
            }
            t = t + 1;
        }
        proof {
            assert(images@.subrange(0, t as int) =~= images@);
        }
        combined.push(combined_row);
        row = row + 1;
    }
    proof {
        assert forall|r: int| 0 <= r < pixels(combined).len() implies #[trigger] pixels(combined)[r]
            == joined_row(tile_pixels(images@), r) by {
            assert(combined@[r]@ == joined_row(tile_pixels(images@), r));
        }
        let g = tile_pixels(images@);
        assert(pixels(combined) =~= Seq::new(g[0].len(), |r: int| joined_row(g, r)));
    }
    Ok(combined)
}

} // verus!
