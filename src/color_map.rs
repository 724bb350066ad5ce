//! A palette of Lab centroids: nearest-centroid classification of colors,
//! narrowing to the centroids in use, and construction by best-of-three
//! k-means clustering.

use crate::Rgb;
use kmeans_colors::Calculate;
use palette::IntoColor;
use vstd::prelude::*;

verus! {

/// A Lab color, held as the bit patterns of its three floating-point
/// coordinates (lightness, a, b).
#[derive(Clone, Copy, Debug, PartialEq, Eq, Hash, Structural)]
pub struct LabBits {
    pub l: u32,
    pub a: u32,
    pub b: u32,
}

/// The Lab color of an RGB color.
pub uninterp spec fn lab_of(c: Rgb) -> LabBits;

/// The RGB color of a Lab color, clamped into gamut.
pub uninterp spec fn rgb_of(lab: LabBits) -> Rgb;

/// The index of the centroid nearest to `x`.
pub uninterp spec fn closest_of(x: LabBits, centroids: Seq<LabBits>) -> int;

/// The score and centroids of one seeded k-means run.
pub uninterp spec fn kmeans_of(
    k: nat,
    max_iter: nat,
    converge: u16,
    buf: Seq<LabBits>,
    seed: u64,
) -> (u32, Seq<LabBits>);

/// The first score is strictly below the second.
pub uninterp spec fn score_below(a: u32, b: u32) -> bool;

/// Relies on palette's conversion from 8-bit sRGB through linear RGB to Lab,
/// which depends on the color alone.
#[verifier::external_body]
fn to_lab(c: Rgb) -> (r: LabBits)
    ensures
        r == lab_of(c),
{
    let lab: palette::Lab = palette::Srgb::new(c.r, c.g, c.b).into_format().into_color();
    LabBits { l: lab.l.to_bits(), a: lab.a.to_bits(), b: lab.b.to_bits() }
}

/// Relies on palette's conversion from Lab through linear RGB to 8-bit sRGB,
/// which depends on the Lab color alone.
#[verifier::external_body]
fn centroid_color(lab: LabBits) -> (r: Rgb)
    ensures
        r == rgb_of(lab),
{
    let centroid: palette::Lab = palette::Lab::new(
        bytemuck::cast(lab.l),
        bytemuck::cast(lab.a),
        bytemuck::cast(lab.b),
    );
    let rgb: palette::Srgb<u8> = palette::Srgb::from_linear(centroid.into_color());
    let (r, g, b) = rgb.into_components();
    Rgb { r, g, b }
}

/// Relies on kmeans_colors' nearest-centroid search for Lab colors, which
/// returns, as a `u8`, the index of the first centroid at least distance, and
/// zero when there are no centroids.
#[verifier::external_body]
fn closest_centroid(x: LabBits, centroids: &Vec<LabBits>) -> (r: usize)
    requires
        centroids@.len() <= 256,
    ensures
        r == closest_of(x, centroids@),
        centroids@.len() > 0 ==> r < centroids@.len(),
        centroids@.len() == 0 ==> r == 0,
{
    let buffer: [palette::Lab; 1] =
        [palette::Lab::new(bytemuck::cast(x.l), bytemuck::cast(x.a), bytemuck::cast(x.b))];
    let cents = centroids
        .iter()
        .map(|c| palette::Lab::new(bytemuck::cast(c.l), bytemuck::cast(c.a), bytemuck::cast(c.b)))
        .collect::<Vec<palette::Lab>>();
    let mut indices: Vec<u8> = Vec::new();
    palette::Lab::get_closest_centroid(&buffer, &cents, &mut indices);
    indices[0] as usize
}

/// The result of one clustering run: its score and its centroids.
pub struct Clustering {
    pub score: u32,
    pub centroids: Vec<LabBits>,
}

/// Relies on kmeans_colors' `get_kmeans`, stopping after `max_iter` iterations
/// or once the centroids move by at most `converge`: seeded, so its result
/// depends on its arguments alone; k-means++ seeding picks one centroid first
/// and at most `k` in all.
#[verifier::external_body]
fn run_kmeans(k: usize, max_iter: usize, converge: u16, buf: &Vec<LabBits>, seed: u64) -> (r:
    Clustering)
    requires
        buf@.len() > 0,
    ensures
        (r.score, r.centroids@) == kmeans_of(k as nat, max_iter as nat, converge, buf@, seed),
        r.centroids@.len() <= k,
        k > 0 ==> r.centroids@.len() >= 1,
{
    let lab = buf
        .iter()
        .map(|c| palette::Lab::new(bytemuck::cast(c.l), bytemuck::cast(c.a), bytemuck::cast(c.b)))
        .collect::<Vec<palette::Lab>>();
    let run = kmeans_colors::get_kmeans(k, max_iter, converge.into(), false, &lab, seed);
    Clustering {
        score: run.score.to_bits(),
        centroids: run
            .centroids
            .iter()
            .map(|c| LabBits { l: c.l.to_bits(), a: c.a.to_bits(), b: c.b.to_bits() })
            .collect(),
    }
}

/// Relies on the `<` of two floating-point scores given by their bit patterns.
#[verifier::external_body]
fn score_less(a: u32, b: u32) -> (r: bool)
    ensures
        r == score_below(a, b),
{
    bytemuck::cast::<u32, <palette::Lab as palette::Mix>::Scalar>(a)
        < bytemuck::cast::<u32, <palette::Lab as palette::Mix>::Scalar>(b)
}

/// Relies on getrandom: eight bytes from the system's random source, read as a
/// little-endian integer; `None` when the source fails.
#[verifier::external_body]
fn random_seed() -> (r: Option<u64>) {
    let mut buf = [0u8; 8];
    match getrandom::getrandom(&mut buf) {
        Ok(()) => Some(u64::from_le_bytes(buf)),
        Err(_) => None,
    }
}

/// The index of the centroid nearest to `c`.
pub open spec fn nearest(centroids: Seq<LabBits>, c: Rgb) -> int {
    closest_of(lab_of(c), centroids)
}

/// The palette's representative color for `c`; `None` for an empty palette.
pub open spec fn classify(centroids: Seq<LabBits>, c: Rgb) -> Option<Rgb> {
    if centroids.len() > 0 {
        Some(rgb_of(centroids[nearest(centroids, c)]))
    } else {
        None
    }
}

/// Which centroids are nearest to at least one of `colors`.
pub open spec fn used_mask(centroids: Seq<LabBits>, colors: Seq<Rgb>) -> Seq<bool> {
    Seq::new(
        centroids.len(),
        |i: int| exists|j: int| 0 <= j < colors.len() && nearest(centroids, #[trigger] colors[j]) == i,
    )
}

/// The centroids whose entry in `mask` is set, in their order.
pub open spec fn kept(centroids: Seq<LabBits>, mask: Seq<bool>) -> Seq<LabBits>
    decreases centroids.len(),
{
    if centroids.len() == 0 {
        seq![]
    } else {
        let pre = kept(centroids.drop_last(), mask);
        if mask[centroids.len() - 1] {
            pre.push(centroids.last())
        } else {
            pre
        }
    }
}

/// The Lab colors of a sequence of pixels.
pub open spec fn labs(pixels: Seq<Rgb>) -> Seq<LabBits> {
    pixels.map_values(|c: Rgb| lab_of(c))
}

/// Seed of the `i`-th clustering run.
pub open spec fn run_seed(seed: u64, i: nat) -> u64 {
    ((seed as nat + i) % 0x1_0000_0000_0000_0000) as u64
}

/// The better of two clustering runs: the second only where its score is
/// strictly below the first's.
pub open spec fn better(best: (u32, Seq<LabBits>), run: (u32, Seq<LabBits>)) -> (u32, Seq<LabBits>) {
    if score_below(run.0, best.0) {
        run
    } else {
        best
    }
}

/// The best of the first `n` runs with seeds `seed`, `seed + 1`, ...
pub open spec fn best_run(k: nat, buf: Seq<LabBits>, seed: u64, n: nat) -> (u32, Seq<LabBits>)
    decreases n,
{
    if n <= 1 {
        kmeans_of(k, MAX_ITERATIONS as nat, CONVERGENCE, buf, seed)
    } else {
        better(
            best_run(k, buf, seed, (n - 1) as nat),
            kmeans_of(k, MAX_ITERATIONS as nat, CONVERGENCE, buf, run_seed(seed, (n - 1) as nat)),
        )
    }
}

/// Number of clustering runs whose best result is kept.
pub const RUNS: u64 = 3;

/// Most iterations of one clustering run.
pub const MAX_ITERATIONS: usize = 20;

/// A run stops once its centroids move by at most this much (squared Lab
/// distance).
pub const CONVERGENCE: u16 = 5;

/// Keeps the better of two clustering runs: `run` only where its score is
/// strictly below that of `best`.
pub fn pick_better(best: Clustering, run: Clustering) -> (r: Clustering)
    ensures
        (r.score, r.centroids@) == better((best.score, best.centroids@), (run.score, run.centroids@)),
{
    if score_less(run.score, best.score) {
        run
    } else {
        best
    }
}

/// An ordered list of Lab centroids onto which colors are quantized.
#[derive(Clone, Debug)]
pub struct Palette {
    centroids: Vec<LabBits>,
}

impl View for Palette {
    type V = Seq<LabBits>;

    closed spec fn view(&self) -> Seq<LabBits> {
        self.centroids@
    }
}

impl Palette {
    /// The centroid count fits the `u8` indices of the nearest-centroid search.
    pub open spec fn wf(&self) -> bool {
        self@.len() <= 256
    }

    /// Best of three k-means runs over the pixels' Lab colors, seeded with
    /// `seed`, `seed + 1` and `seed + 2` (wrapping): the first run with the
    /// lowest score wins.
    pub fn from_seed(pixels: &Vec<Rgb>, max_colors: usize, seed: u64) -> (p: Palette)
        requires
            pixels@.len() > 0,
            0 < max_colors <= 256,
        ensures
            p.wf(),
            p@ == best_run(max_colors as nat, labs(pixels@), seed, RUNS as nat).1,
            1 <= p@.len() <= max_colors,
    {
        let mut lab: Vec<LabBits> = Vec::new();
        let mut i: usize = 0;
        while i < pixels.len()
            invariant
                i <= pixels@.len(),
                lab@ == labs(pixels@.subrange(0, i as int)),
            decreases pixels@.len() - i,
        {
            let x = to_lab(pixels[i]);
            proof {
                assert(labs(pixels@.subrange(0, i as int + 1)) =~= labs(pixels@.subrange(0, i as int)).push(x));
            }
            lab.push(x);
            i = i + 1;
        }
        proof {
            assert(pixels@.subrange(0, i as int) =~= pixels@);
        }
        let mut best = run_kmeans(max_colors, MAX_ITERATIONS, CONVERGENCE, &lab, seed);
        let mut n: u64 = 1;
        while n < RUNS
            invariant
                1 <= n <= RUNS,
                lab@ == labs(pixels@),
                lab@.len() > 0,
                0 < max_colors <= 256,
                (best.score, best.centroids@) == best_run(max_colors as nat, lab@, seed, n as nat),
                1 <= best.centroids@.len() <= max_colors,
            decreases RUNS - n,
        {
            let run = run_kmeans(max_colors, MAX_ITERATIONS, CONVERGENCE, &lab, seed.wrapping_add(n));
            proof {
                assert(seed.wrapping_add(n) == run_seed(seed, n as nat));
            }
            best = pick_better(best, run);
            n = n + 1;
        }
        Palette { centroids: best.centroids }
    }

    /// Builds a palette of at most `max_colors` centroids from the pixels, with
    /// a seed drawn from the system's random source; `None` when that source
    /// fails.
    pub fn new(pixels: &Vec<Rgb>, max_colors: usize) -> (r: Option<Palette>)
        requires
            pixels@.len() > 0,
            0 < max_colors <= 256,
        ensures
            match r {
                Some(p) => p.wf() && 1 <= p@.len() <= max_colors && exists|seed: u64|
                    p@ == #[trigger] best_run(max_colors as nat, labs(pixels@), seed, RUNS as nat).1,
                None => true,
            },
    {
        match random_seed() {
            Some(seed) => Some(Palette::from_seed(pixels, max_colors, seed)),
            None => None,
        }
    }

    /// Number of centroids.
    pub fn len(&self) -> (r: usize)
        ensures
            r == self@.len(),
    {
        self.centroids.len()
    }

    /// Index of the centroid nearest to `color` in Lab space; zero for an
    /// empty palette.
    pub fn index_of(&self, color: &Rgb) -> (r: usize)
        requires
            self.wf(),
        ensures
            r == nearest(self@, *color),
            self@.len() > 0 ==> r < self@.len(),
            self@.len() == 0 ==> r == 0,
    {
        closest_centroid(to_lab(*color), &self.centroids)
    }

    /// The RGB color of centroid `idx`, or `None` past the last centroid.
    pub fn lookup(&self, idx: usize) -> (r: Option<Rgb>)
        ensures
            r == (if idx < self@.len() {
                Some(rgb_of(self@[idx as int]))
            } else {
                None::<Rgb>
            }),
    {
        if idx < self.centroids.len() {
            Some(centroid_color(self.centroids[idx]))
        } else {
            None
        }
    }

    /// This palette can always report a centroid's color.
    pub fn has_lookup(&self) -> (r: bool)
        ensures
            r,
    {
        true
    }

    /// The palette's representative color for `color`.
    pub fn map(&self, color: &Rgb) -> (r: Option<Rgb>)
        requires
            self.wf(),
        ensures
            r == classify(self@, *color),
    {
        let index = self.index_of(color);
        self.lookup(index)
    }

    /// Replaces `color` by its representative color; an empty palette leaves it
    /// as it is.
    pub fn map_mut(&self, color: &mut Rgb)
        requires
            self.wf(),
        ensures
            *final(color) == match classify(self@, *old(color)) {
                Some(c) => c,
                None => *old(color),
            },
    {
        let index = self.index_of(color);
        if let Some(new_color) = self.lookup(index) {
            *color = new_color;
        }
    }

    /// Same as `map_mut`.
    pub fn map_color(&self, color: &mut Rgb)
        requires
            self.wf(),
        ensures
            *final(color) == match classify(self@, *old(color)) {
                Some(c) => c,
                None => *old(color),
            },
    {
        self.map_mut(color)
    }

    /// Keeps only the centroids nearest to at least one of `colors`, in their
    /// order.
    pub fn shrink(&mut self, colors: Vec<Rgb>)
        requires
            old(self).wf(),
        ensures
            final(self).wf(),
            final(self)@ == kept(old(self)@, used_mask(old(self)@, colors@)),
            old(self)@.len() > 0 ==> forall|j: int|
                0 <= j < colors@.len() ==> nearest(old(self)@, #[trigger] colors@[j]) < old(self)@.len(),
    {
        let n = self.centroids.len();
        let ghost cs = self@;
        let mut used: Vec<bool> = Vec::new();
        while used.len() < n
            invariant
                used@.len() <= n,
                forall|i: int| 0 <= i < used@.len() ==> !#[trigger] used@[i],
            decreases n - used@.len(),
        {
            used.push(false);
        }
        let mut j: usize = 0;
        while j < colors.len()
            invariant
                self@ == cs,
                self.wf(),
                n == cs.len(),
                j <= colors@.len(),
                used@ == Seq::new(
                    n as nat,
                    |i: int| exists|q: int| 0 <= q < j && nearest(cs, #[trigger] colors@[q]) == i,
                ),
                n > 0 ==> forall|q: int| 0 <= q < j ==> nearest(cs, #[trigger] colors@[q]) < n,
            decreases colors@.len() - j,
        {
            let idx = self.index_of(&colors[j]);
            let ghost prev = used@;
            if idx < n {
                used.set(idx, true);
            }
            proof {
                assert forall|i: int| 0 <= i < n implies #[trigger] used@[i] == exists|q: int|
                    0 <= q < j + 1 && nearest(cs, #[trigger] colors@[q]) == i by {
                    if used@[i] && !prev[i] {
                        assert(nearest(cs, colors@[j as int]) == i);
                    }
                    if !used@[i] {
                        if exists|q: int| 0 <= q < j + 1 && nearest(cs, #[trigger] colors@[q]) == i {
                            let q = choose|q: int| 0 <= q < j + 1 && nearest(cs, #[trigger] colors@[q]) == i;
                            if q < j {
                                assert(prev[i]);
                            }
                        }
                    }
                }
                assert(used@ =~= Seq::new(
                    n as nat,
                    |i: int| exists|q: int| 0 <= q < j + 1 && nearest(cs, #[trigger] colors@[q]) == i,
                ));
            }
            j = j + 1;
        }
        proof {
            assert(used@ =~= used_mask(cs, colors@));
        }
        let mut out: Vec<LabBits> = Vec::new();
        let mut i: usize = 0;
        while i < n
            invariant
                self@ == cs,
                n == cs.len(),
                used@.len() == n,
                i <= n,
                out@ == kept(cs.subrange(0, i as int), used@),
                out@.len() <= i,
            decreases n - i,
        {
            proof {
                let next = cs.subrange(0, i as int + 1);
                assert(next.drop_last() =~= cs.subrange(0, i as int));
            }
            if used[i] {
                out.push(self.centroids[i]);
            }
            i = i + 1;
        }
        proof {
            assert(cs.subrange(0, i as int) =~= cs);
        }
        self.centroids = out;
    }
}

/// Two nearest-centroid lookups of one color against one palette agree: the
/// index depends on the centroids and the color alone.
pub proof fn nearest_is_deterministic(p: Palette, c: Rgb, first: usize, second: usize)
    requires
        p.wf(),
        first == nearest(p@, c),
        second == nearest(p@, c),
    ensures
        first == second,
{
}

/// Narrowing a palette never makes it larger.
pub proof fn shrink_never_grows(centroids: Seq<LabBits>, mask: Seq<bool>)
    ensures
        kept(centroids, mask).len() <= centroids.len(),
    decreases centroids.len(),
{
    if centroids.len() > 0 {
        shrink_never_grows(centroids.drop_last(), mask);
    }
}

/// Narrowing a palette keeps every centroid that one of the given colors is
/// nearest to, so that color's representative color stays in the palette.
pub proof fn shrink_keeps_needed(centroids: Seq<LabBits>, colors: Seq<Rgb>, j: int)
    requires
        0 <= j < colors.len(),
        0 <= nearest(centroids, colors[j]) < centroids.len(),
    ensures
        kept(centroids, used_mask(centroids, colors)).contains(centroids[nearest(centroids, colors[j])]),
        classify(centroids, colors[j]) == Some(
            rgb_of(centroids[nearest(centroids, colors[j])]),
        ),
{
    let i = nearest(centroids, colors[j]);
    let mask = used_mask(centroids, colors);
    assert(mask[i]);
    lemma_kept_contains(centroids, mask, i);
}

proof fn lemma_kept_contains(centroids: Seq<LabBits>, mask: Seq<bool>, i: int)
    requires
        0 <= i < centroids.len(),
        i < mask.len(),
        mask[i],
    ensures
        kept(centroids, mask).contains(centroids[i]),
    decreases centroids.len(),
{
    let pre = kept(centroids.drop_last(), mask);
    if i == centroids.len() - 1 {
        assert(kept(centroids, mask) == pre.push(centroids.last()));
        assert(kept(centroids, mask)[pre.len() as int] == centroids[i]);
    } else {
        lemma_kept_contains(centroids.drop_last(), mask, i);
        let k = choose|k: int| 0 <= k < pre.len() && pre[k] == centroids.drop_last()[i];
        if mask[centroids.len() - 1] {
            assert(kept(centroids, mask)[k] == centroids[i]);
        } else {
            assert(kept(centroids, mask)[k] == centroids[i]);
        }
    }
}

proof fn lemma_kept_single(centroids: Seq<LabBits>, mask: Seq<bool>, i: int)
    requires
        0 <= i,
        centroids.len() <= mask.len(),
        forall|k: int| 0 <= k < centroids.len() ==> mask[k] == (k == i),
    ensures
        kept(centroids, mask) == (if i < centroids.len() {
            seq![centroids[i]]
        } else {
            Seq::<LabBits>::empty()
        }),
    decreases centroids.len(),
{
    if centroids.len() > 0 {
        let init = centroids.drop_last();
        lemma_kept_single(init, mask, i);
        if i < init.len() {
            assert(seq![init[i]] == seq![centroids[i]]);
        }
        if i == init.len() {
            assert(seq![centroids[i]] =~= Seq::<LabBits>::empty().push(centroids.last()));
        }
    }
}

/// Narrowing a palette to colors that all share one nearest centroid leaves
/// exactly that centroid.
pub proof fn shrink_to_one_centroid(centroids: Seq<LabBits>, colors: Seq<Rgb>, i: int)
    requires
        colors.len() > 0,
        0 <= i < centroids.len(),
        forall|j: int| 0 <= j < colors.len() ==> nearest(centroids, #[trigger] colors[j]) == i,
    ensures
        kept(centroids, used_mask(centroids, colors)) == seq![centroids[i]],
{
    let mask = used_mask(centroids, colors);
    assert forall|k: int| 0 <= k < centroids.len() implies mask[k] == (k == i) by {
        if k == i {
            assert(nearest(centroids, colors[0]) == i);
        }
    }
    lemma_kept_single(centroids, mask, i);
}

} // verus!
