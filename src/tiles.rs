//! Tiles bucketed by the palette color of their average color, and the
//! assembly of one mosaic row from them.

use crate::color_map::{classify, Palette};
use crate::{
    average_color, combine_images, combined, mean_color, pixel_count, pixels, result_pixels,
    resize_and_extract_pixel_rows, tile_pixels, Image, ImageRow, MosaicError, Rgb,
};
use rand::RngCore;
use vstd::prelude::*;

verus! {

/// A copy of `img`, pixel for pixel.
fn copy_image(img: &Image) -> (r: Image)
    ensures
        pixels(r) == pixels(*img),
{
    let mut out: Image = Vec::new();
    let mut i: usize = 0;
    while i < img.len()
        invariant
            i <= img@.len(),
            out@.len() == i,
            forall|q: int| 0 <= q < i ==> (#[trigger] out@[q])@ == img@[q]@,
        decreases img@.len() - i,
    {
        let src = &img[i];
        let mut row: ImageRow = Vec::new();
        let mut j: usize = 0;
        while j < src.len()
            invariant
                j <= src@.len(),
                row@ == src@.subrange(0, j as int),
            decreases src@.len() - j,
        {
            row.push(src[j]);
            proof {
                assert(src@.subrange(0, j as int + 1) =~= src@.subrange(0, j as int).push(src@[j as int]));
            }
            j = j + 1;
        }
        proof {
            assert(src@.subrange(0, j as int) =~= src@);
        }
        out.push(row);
        i = i + 1;
    }
    proof {
        assert(pixels(out) =~= pixels(*img));
    }
    out
}

/// Relies on rand's `OsRng::try_fill_bytes`: eight bytes from the system's
/// random source, read as a little-endian integer; `None` when the source
/// fails.
#[verifier::external_body]
fn random_draw() -> (r: Option<u64>) {
    let mut buf = [0u8; 8];
    match rand::rngs::OsRng.try_fill_bytes(&mut buf) {
        Ok(()) => Some(u64::from_le_bytes(buf)),
        Err(_) => None,
    }
}

/// Position of `c` among `keys`; meaningful when `keys` holds it.
pub open spec fn key_index(keys: Seq<Rgb>, c: Rgb) -> int {
    choose|i: int| 0 <= i < keys.len() && keys[i] == c
}

/// Tiles bucketed by palette color: the `i`-th color keys the `i`-th bucket.
///
/// The buckets stand in two vectors rather than a hash map keyed by color, so
/// that the keys keep the order in which their first tile came and every
/// lookup is proved against the vectors' contents; `wf` keeps the keys unique.
pub struct TileIndex {
    colors: Vec<Rgb>,
    buckets: Vec<Vec<Image>>,
}

impl View for TileIndex {
    type V = (Seq<Rgb>, Seq<Seq<Image>>);

    closed spec fn view(&self) -> (Seq<Rgb>, Seq<Seq<Image>>) {
        (self.colors@, self.buckets@.map_values(|b: Vec<Image>| b@))
    }
}

impl TileIndex {
    /// One bucket per color, no color twice, no bucket empty, and every tile
    /// has at least one pixel and few enough for its channel sums.
    pub open spec fn wf(&self) -> bool {
        let (keys, buckets) = self@;
        &&& keys.len() == buckets.len()
        &&& forall|i: int, j: int| 0 <= i < j < keys.len() ==> keys[i] != keys[j]
        &&& forall|i: int| 0 <= i < buckets.len() ==> (#[trigger] buckets[i]).len() > 0
        &&& forall|i: int, t: int|
            0 <= i < buckets.len() && 0 <= t < buckets[i].len() ==> 0 < pixel_count(
                (#[trigger] buckets[i][t])@,
            ) <= u32::MAX
    }

    /// Every tile sits in the bucket of the palette color of its average color.
    pub open spec fn consistent(&self, palette: Seq<crate::color_map::LabBits>) -> bool {
        let (keys, buckets) = self@;
        forall|i: int, t: int|
            0 <= i < buckets.len() && 0 <= t < buckets[i].len() ==> classify(
                palette,
                mean_color((#[trigger] buckets[i][t])@),
            ) == Some(keys[i])
    }

    /// The tile drawn for `pixel` with `draw`: the palette color of the pixel
    /// picks a bucket, and `draw` modulo its size a tile in it.
    pub open spec fn pick(
        &self,
        palette: Seq<crate::color_map::LabBits>,
        pixel: Rgb,
        draw: usize,
    ) -> Option<Image> {
        let (keys, buckets) = self@;
        match classify(palette, pixel) {
            Some(c) => if keys.contains(c) {
                let b = buckets[key_index(keys, c)];
                Some(b[(draw as int) % (b.len() as int)])
            } else {
                None
            },
            None => None,
        }
    }

    /// What assembling a row gives for the given draws: a pixel whose palette
    /// color has no bucket fails the row; otherwise the drawn tiles are
    /// combined.
    pub open spec fn assembled(
        &self,
        palette: Seq<crate::color_map::LabBits>,
        row: Seq<Rgb>,
        draws: Seq<usize>,
    ) -> Result<Seq<Seq<Rgb>>, MosaicError> {
        if exists|p: int| 0 <= p < row.len() && (#[trigger] self.pick(palette, row[p], draws[p])) is None {
            Err(MosaicError::UnmappedPixel)
        } else {
            combined(
                tile_pixels(Seq::new(row.len(), |p: int| self.pick(palette, row[p], draws[p])->Some_0)),
            )
        }
    }

    /// The index after `tile` is filed under the palette color of its average
    /// color: appended to that color's bucket, or in a new bucket at the end.
    pub open spec fn filed(
        view: (Seq<Rgb>, Seq<Seq<Image>>),
        palette: Seq<crate::color_map::LabBits>,
        tile: Image,
    ) -> (Seq<Rgb>, Seq<Seq<Image>>) {
        let c = classify(palette, mean_color(tile@))->Some_0;
        let (keys, buckets) = view;
        if keys.contains(c) {
            let i = key_index(keys, c);
            (keys, buckets.update(i, buckets[i].push(tile)))
        } else {
            (keys.push(c), buckets.push(seq![tile]))
        }
    }

    /// An index with no tiles.
    pub fn new() -> (r: TileIndex)
        ensures
            r.wf(),
            r@.0.len() == 0,
            forall|palette: Seq<crate::color_map::LabBits>| r.consistent(palette),
    {
        let r = TileIndex { colors: Vec::new(), buckets: Vec::new() };
        assert(r@.1 =~= Seq::<Seq<Image>>::empty());
        r
    }

    /// The palette colors that have tiles, in the order of their first tile.
    pub fn colors(&self) -> (r: Vec<Rgb>)
        ensures
            r@ == self@.0,
    {
        let mut out: Vec<Rgb> = Vec::new();
        let mut i: usize = 0;
        while i < self.colors.len()
            invariant
                i <= self.colors@.len(),
                out@ == self.colors@.subrange(0, i as int),
            decreases self.colors@.len() - i,
        {
            out.push(self.colors[i]);
            proof {
                assert(self.colors@.subrange(0, i as int + 1) =~= self.colors@.subrange(
                    0,
                    i as int,
                ).push(self.colors@[i as int]));
            }
            i = i + 1;
        }
        proof {
            assert(self.colors@.subrange(0, i as int) =~= self.colors@);
        }
        out
    }

    /// Position of the bucket keyed by `color`, if any.
    fn find(&self, color: &Rgb) -> (r: Option<usize>)
        requires
            self.wf(),
        ensures
            match r {
                Some(i) => i < self@.0.len() && self@.0[i as int] == *color && i == key_index(
                    self@.0,
                    *color,
                ),
                None => !self@.0.contains(*color),
            },
    {
        let mut i: usize = 0;
        while i < self.colors.len()
            invariant
                self.wf(),
                i <= self.colors@.len(),
                forall|q: int| 0 <= q < i ==> self.colors@[q] != *color,
            decreases self.colors@.len() - i,
        {
            if self.colors[i] == *color {
                proof {
                    let k = key_index(self@.0, *color);
                    assert(0 <= i < self@.0.len() && self@.0[i as int] == *color);
                    assert(self@.0[k] == *color);
                    if k > i {
                        assert(self@.0[i as int] != self@.0[k]);
                    }
                }
                return Some(i);
            }
            i = i + 1;
        }
        None
    }

    /// The tiles whose average color maps to `color`, if any.
    pub fn get(&self, color: &Rgb) -> (r: Option<&Vec<Image>>)
        requires
            self.wf(),
        ensures
            match r {
                Some(b) => self@.0.contains(*color) && b@ == self@.1[key_index(self@.0, *color)],
                None => !self@.0.contains(*color),
            },
    {
        match self.find(color) {
            Some(i) => Some(&self.buckets[i]),
            None => None,
        }
    }

    /// Files `tile` under the palette color of its average color, opening a
    /// bucket for that color if it has none.
    pub fn add_tile(&mut self, palette: &Palette, tile: Image)
        requires
            old(self).wf(),
            old(self).consistent(palette@),
            palette.wf(),
            palette@.len() > 0,
            0 < pixel_count(tile@) <= u32::MAX,
        ensures
            final(self).wf(),
            final(self).consistent(palette@),
            final(self)@ == Self::filed(old(self)@, palette@, tile),
    {
        let mut color = average_color(&tile);
        palette.map_mut(&mut color);
        let ghost c = color;
        let ghost old_view = self@;
        match self.find(&color) {
            Some(i) => {
                let mut bucket = self.buckets.remove(i);
                bucket.push(tile);
                self.buckets.insert(i, bucket);
                proof {
                    assert(self@.1 =~= old_view.1.update(i as int, old_view.1[i as int].push(tile)));
                    assert(self@.0 == old_view.0);
                    let (keys, buckets) = self@;
                    assert forall|q: int, t: int|
                        0 <= q < buckets.len() && 0 <= t < buckets[q].len() implies 0 < pixel_count(
                        (#[trigger] buckets[q][t])@) <= u32::MAX && classify(
                        palette@,
                        mean_color(buckets[q][t]@),
                    ) == Some(keys[q]) by {
                        if q == i && t == buckets[q].len() - 1 {
                            assert(buckets[q][t] == tile);
                        } else {
                            assert(buckets[q][t] == old_view.1[q][t]);
                        }
                    }
                }
            },
            None => {
                self.colors.push(color);
                let mut bucket: Vec<Image> = Vec::new();
                bucket.push(tile);
                self.buckets.push(bucket);
                proof {
                    assert(self@.1 =~= old_view.1.push(seq![tile]));
                    assert(self@.0 =~= old_view.0.push(c));
                    let (keys, buckets) = self@;
                    assert forall|q: int, t: int|
                        0 <= q < buckets.len() && 0 <= t < buckets[q].len() implies 0 < pixel_count(
                        (#[trigger] buckets[q][t])@) <= u32::MAX && classify(
                        palette@,
                        mean_color(buckets[q][t]@),
                    ) == Some(keys[q]) by {
                        if q == buckets.len() - 1 {
                            assert(buckets[q][t] == tile);
                        } else {
                            assert(buckets[q][t] == old_view.1[q][t]);
                        }
                    }
                    assert forall|a: int, b: int| 0 <= a < b < keys.len() implies keys[a] != keys[b] by {
                        if b == keys.len() - 1 {
                            assert(keys[b] == c);
                            assert(old_view.0[a] == keys[a]);
                        }
                    }
                }
            },
        }
    }

    /// Resizes `image` to a `tile_size` square and files it with `add_tile`.
    pub fn add_image(&mut self, palette: &Palette, image: image::DynamicImage, tile_size: u32)
        requires
            old(self).wf(),
            old(self).consistent(palette@),
            palette.wf(),
            palette@.len() > 0,
            0 < tile_size <= 0xffff,
        ensures
            final(self).wf(),
            final(self).consistent(palette@),
            exists|tile: Image|
                pixels(tile).len() == tile_size && (forall|r: int|
                    0 <= r < tile_size ==> (#[trigger] pixels(tile)[r]).len() == tile_size)
                    && final(self)@ == #[trigger] Self::filed(old(self)@, palette@, tile),
    {
        let res = resize_and_extract_pixel_rows(image, tile_size, tile_size);
        let rows = match res {
            Ok(rows) => rows,
            Err(_) => {
                assert(false);
                return;
            },
        };
        assert(tile_size * tile_size <= 0xffff * 0xffff) by (nonlinear_arith)
            requires
                0 < tile_size <= 0xffff,
        ;
        assert(tile_size * tile_size > 0) by (nonlinear_arith)
            requires
                0 < tile_size,
        ;
        let ghost tile = rows;
        self.add_tile(palette, rows);
        assert(forall|r: int| 0 <= r < tile_size ==> (#[trigger] pixels(tile)[r]).len() == tile_size);
    }

    /// One mosaic row: for each pixel, the tile that `draws` picks from the
    /// bucket of the pixel's palette color, all joined side by side. Fails with
    /// `UnmappedPixel` when a pixel's palette color has no bucket.
    pub fn assemble_row_with(&self, palette: &Palette, row: &Vec<Rgb>, draws: &Vec<usize>) -> (res:
        Result<Image, MosaicError>)
        requires
            self.wf(),
            palette.wf(),
            draws@.len() == row@.len(),
        ensures
            result_pixels(res) == self.assembled(palette@, row@, draws@),
    {
        let mut chosen: Vec<Image> = Vec::new();
        let mut p: usize = 0;
        while p < row.len()
            invariant
                self.wf(),
                palette.wf(),
                draws@.len() == row@.len(),
                p <= row@.len(),
                chosen@.len() == p,
                forall|q: int|
                    0 <= q < p ==> (#[trigger] self.pick(palette@, row@[q], draws@[q])) is Some
                        && pixels(chosen@[q]) == pixels(self.pick(palette@, row@[q], draws@[q])->Some_0),
            decreases row@.len() - p,
        {
            match palette.map(&row[p]) {
                None => {
                    assert(self.pick(palette@, row@[p as int], draws@[p as int]) is None);
                    return Err(MosaicError::UnmappedPixel);
                },
                Some(c) => match self.find(&c) {
                    None => {
                        assert(self.pick(palette@, row@[p as int], draws@[p as int]) is None);
                        return Err(MosaicError::UnmappedPixel);
                    },
                    Some(i) => {
                        let bucket = &self.buckets[i];
                        assert(self@.1[i as int] == bucket@);
                        assert(bucket@.len() > 0);
                        let k = draws[p] % bucket.len();
                        let tile = copy_image(&bucket[k]);
                        chosen.push(tile);
                    },
                },
            }
            p = p + 1;
        }
        proof {
            let picked = Seq::new(row@.len(), |q: int| self.pick(palette@, row@[q], draws@[q])->Some_0);
            assert(tile_pixels(chosen@) =~= tile_pixels(picked));
            assert(!exists|q: int|
                0 <= q < row@.len() && (#[trigger] self.pick(palette@, row@[q], draws@[q])) is None);
        }
        combine_images(chosen)
    }

    /// One mosaic row as `assemble_row_with` builds it, each tile drawn at
    /// random from its bucket; `NoRandomness` when the system's random source
    /// fails.
    pub fn assemble_row(&self, palette: &Palette, row: &Vec<Rgb>) -> (res: Result<Image, MosaicError>)
        requires
            self.wf(),
            palette.wf(),
        ensures
            res == Err::<Image, MosaicError>(MosaicError::NoRandomness) || exists|draws: Seq<usize>|
                draws.len() == row@.len() && result_pixels(res) == #[trigger] self.assembled(
                    palette@,
                    row@,
                    draws,
                ),
    {
        let mut draws: Vec<usize> = Vec::new();
        let mut p: usize = 0;
        while p < row.len()
            invariant
                self.wf(),
                palette.wf(),
                p <= row@.len(),
                draws@.len() == p,
            decreases row@.len() - p,
        {
            let mut draw: usize = 0;
            if let Some(c) = palette.map(&row[p]) {
                if let Some(i) = self.find(&c) {
                    assert(self@.1[i as int].len() > 0);
                    let len = self.buckets[i].len();
                    match random_draw() {
                        Some(x) => {
                            draw = (x % (len as u64)) as usize;
                        },
                        None => {
                            return Err(MosaicError::NoRandomness);
                        },
                    }
                }
            }
            draws.push(draw);
            p = p + 1;
        }
        self.assemble_row_with(palette, row, &draws)
    }
}

/// Some tile of `tiles` has an average color that the palette maps to `c`.
pub open spec fn reproduced(palette: Seq<crate::color_map::LabBits>, tiles: Seq<Image>, c: Rgb) -> bool {
    exists|t: int| 0 <= t < tiles.len() && classify(palette, mean_color((#[trigger] tiles[t])@)) == Some(c)
}

/// Every color that keys a bucket is what the palette makes of the average
/// color of at least one tile in it.
pub proof fn keys_come_from_tiles(index: TileIndex, palette: Seq<crate::color_map::LabBits>)
    requires
        index.wf(),
        index.consistent(palette),
    ensures
        forall|i: int| 0 <= i < index@.0.len() ==> #[trigger] reproduced(palette, index@.1[i], index@.0[i]),
{
    assert forall|i: int| 0 <= i < index@.0.len() implies #[trigger] reproduced(
        palette,
        index@.1[i],
        index@.0[i],
    ) by {
        assert(index@.1[i].len() > 0);
        assert(classify(palette, mean_color(index@.1[i][0]@)) == Some(index@.0[i]));
    }
}

/// An index without tiles fails every row that has a pixel: there is no
/// default tile.
pub proof fn empty_index_fails(
    index: TileIndex,
    palette: Seq<crate::color_map::LabBits>,
    row: Seq<Rgb>,
    draws: Seq<usize>,
)
    requires
        index@.0.len() == 0,
        row.len() > 0,
    ensures
        index.assembled(palette, row, draws) == Err::<Seq<Seq<Rgb>>, MosaicError>(
            MosaicError::UnmappedPixel,
        ),
{
    assert(index.pick(palette, row[0], draws[0]) is None);
}

} // verus!
