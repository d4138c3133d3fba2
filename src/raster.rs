//! Co-occurrence rasters: a 256 by 256 grid where the cell at `(x, y)`
//! shows how often the bytes `x, y` follow each other.

use vstd::prelude::*;
use crate::histogram::{Histogram, entries_view, sum_counts, well_shaped};

verus! {

/// Width and height of a raster.
pub const SIDE: usize = 256;

/// Number of cells of a raster.
pub const CELLS: usize = 65536;

/// Largest value of a channel.
pub const MAX_CHANNEL: u16 = 65535;

/// Value of the presence channel in each observed cell of a colour raster.
pub const PRESENCE: u16 = 65535;

/// Channel values of one cell; a grey raster uses the first only.
pub type Pixel = (u16, u16, u16);

/// `round(count / average * MAX_CHANNEL)` with `average = total / observed`,
/// clipped to `MAX_CHANNEL`.
pub open spec fn intensity(count: nat, observed: nat, total: nat) -> nat {
    let scaled = (2 * count * observed * 65535 + total) / (2 * total);
    if scaled > 65535 {
        65535
    } else {
        scaled
    }
}

/// The entry's key starts with the bytes `x, y`.
pub open spec fn on_cell(key: Seq<u8>, x: int, y: int) -> bool {
    key[0] == x && key[1] == y
}

/// Index of the last of the first `upto` entries that falls on cell `(x, y)`,
/// or -1 when none does.
pub open spec fn last_on_cell(s: Seq<(Seq<u8>, nat)>, x: int, y: int, upto: int) -> int
    decreases upto,
{
    if upto <= 0 {
        -1
    } else if on_cell(s[upto - 1].0, x, y) {
        upto - 1
    } else {
        last_on_cell(s, x, y, upto - 1)
    }
}

/// The pixel drawn for one entry. Pairs give a grey level. Triples give the
/// third byte scaled to the channel range, the presence mark, and the level.
pub open spec fn entry_pixel(e: (Seq<u8>, nat), dimension: nat, observed: nat, total: nat) -> Pixel {
    let v = intensity(e.1, observed, total) as u16;
    if dimension == 2 {
        (v, 0u16, 0u16)
    } else {
        ((e.0[2] as nat * 257) as u16, PRESENCE, v)
    }
}

/// Cell `p` (row-major, `x = p % 256`, `y = p / 256`) once the first `upto`
/// entries are drawn: cells that no entry falls on stay black.
pub open spec fn pixel_after(s: Seq<(Seq<u8>, nat)>, dimension: nat, p: int, upto: int) -> Pixel {
    let i = last_on_cell(s, p % 256, p / 256, upto);
    if i < 0 {
        (0u16, 0u16, 0u16)
    } else {
        entry_pixel(s[i], dimension, s.len(), sum_counts(s))
    }
}

/// Cell `p` of the raster of the entries `s`.
pub open spec fn raster_pixel(s: Seq<(Seq<u8>, nat)>, dimension: nat, p: int) -> Pixel {
    pixel_after(s, dimension, p, s.len() as int)
}

/// A 256 by 256 image with one (grey) or three (colour) 16-bit channels.
pub struct Raster {
    channels: usize,
    pixels: Vec<Pixel>,
}

impl View for Raster {
    type V = Seq<Pixel>;

    closed spec fn view(&self) -> Seq<Pixel> {
        self.pixels@
    }
}

impl Raster {
    pub closed spec fn spec_channels(&self) -> nat {
        self.channels as nat
    }

    /// Number of channels in use: 1 or 3.
    pub fn channels(&self) -> (r: usize)
        ensures
            r == self.spec_channels(),
    {
        self.channels
    }

    /// All cells, row by row.
    pub fn pixels(&self) -> (r: &Vec<Pixel>)
        ensures
            r@ == self@,
    {
        &self.pixels
    }

    /// The cell at column `x` and row `y`.
    pub fn pixel(&self, x: u8, y: u8) -> (r: Pixel)
        requires
            self@.len() == CELLS,
        ensures
            r == self@[y * 256 + x],
    {
        self.pixels[y as usize * SIDE + x as usize]
    }
}

/// Computes `intensity` without overflow.
fn scale_intensity(count: usize, observed: usize, total: usize) -> (v: u16)
    requires
        total > 0,
    ensures
        v == intensity(count as nat, observed as nat, total as nat),
{
    let c = count as u128;
    let o = observed as u128;
    let t = total as u128;
    assert(c * o <= 0xFFFF_FFFF_FFFF_FFFFu128 * 0xFFFF_FFFF_FFFF_FFFFu128) by (nonlinear_arith)
        requires
            c <= 0xFFFF_FFFF_FFFF_FFFFu128,
            o <= 0xFFFF_FFFF_FFFF_FFFFu128,
    ;
    let co = c * o;
    proof {
        let x = 2 * co * 65535 + t;
        assert(2 * count * observed * 65535 == 2 * co * 65535) by (nonlinear_arith)
            requires
                co == count * observed,
        ;
        if co >= t {
            assert(x >= (2 * t) * 65535) by (nonlinear_arith)
                requires
                    co >= t,
                    x == 2 * co * 65535 + t,
            ;
            vstd::arithmetic::div_mod::lemma_div_is_ordered((2 * t) * 65535, x, 2 * t);
            vstd::arithmetic::div_mod::lemma_div_multiples_vanish(65535, 2 * t);
        } else {
            assert(x < (2 * t) * 65536) by (nonlinear_arith)
                requires
                    co < t,
                    x == 2 * co * 65535 + t,
            ;
            vstd::arithmetic::div_mod::lemma_multiply_divide_lt(x, 2 * t, 65536);
        }
    }
    if co >= t {
        MAX_CHANNEL
    } else {
        let q = (2 * co * 65535 + t) / (2 * t);
        q as u16
    }
}

/// Draws every entry of a histogram of pairs (grey) or triples (colour) onto
/// a fresh raster, in key order: the cell `(x, y)` shows the last entry whose
/// key starts with `x, y`, and cells that no entry falls on stay black.
pub fn rasterize(histogram: &Histogram) -> (r: Raster)
    requires
        histogram.wf(),
        histogram.spec_dimension() == 2 || histogram.spec_dimension() == 3,
    ensures
        r@.len() == CELLS,
        r.spec_channels() == if histogram.spec_dimension() == 2 { 1nat } else { 3nat },
        forall|p: int|
            0 <= p < CELLS ==> #[trigger] r@[p] == raster_pixel(
                histogram@,
                histogram.spec_dimension(),
                p,
            ),
{
    let n = histogram.dimension();
    let entries = histogram.entries();
    let ghost s = histogram@;
    let total = histogram.total();
    let observed = entries.len();
    let mut pixels: Vec<Pixel> = Vec::with_capacity(CELLS);
    while pixels.len() < CELLS
        invariant
            pixels@.len() <= CELLS,
            forall|p: int| 0 <= p < pixels@.len() ==> #[trigger] pixels@[p] == (0u16, 0u16, 0u16),
        decreases CELLS - pixels@.len(),
    {
        pixels.push((0, 0, 0));
    }
    let mut i: usize = 0;
    while i < observed
        invariant
            entries_view(entries@) == s,
            observed == s.len(),
            total == sum_counts(s),
            n == histogram.spec_dimension(),
            n == 2 || n == 3,
            well_shaped(s, n as nat),
            i <= observed,
            pixels@.len() == CELLS,
            forall|p: int| 0 <= p < CELLS ==> #[trigger] pixels@[p] == pixel_after(s, n as nat, p, i as int),
        decreases observed - i,
    {
        let key = &entries[i].0;
        let count = entries[i].1;
        assert(s[i as int] == (key@, count as nat));
        proof {
            crate::histogram::lemma_count_le_sum(s, i as int);
        }
        let v = scale_intensity(count, observed, total);
        let x = key[0];
        let y = key[1];
        let px: Pixel = if n == 2 {
            (v, 0, 0)
        } else {
            (key[2] as u16 * 257, PRESENCE, v)
        };
        assert(px == entry_pixel(s[i as int], n as nat, s.len(), sum_counts(s)));
        let idx = y as usize * SIDE + x as usize;
        let ghost old_pixels = pixels@;
        pixels.set(idx, px);
        assert forall|p: int| 0 <= p < CELLS implies #[trigger] pixels@[p] == pixel_after(
            s,
            n as nat,
            p,
            i + 1,
        ) by {
            if p == idx {
                assert(p % 256 == x && p / 256 == y);
            } else {
                assert(old_pixels[p] == pixel_after(s, n as nat, p, i as int));
                assert(!on_cell(key@, p % 256, p / 256));
            }
        }
        i = i + 1;
    }
    Raster { channels: if n == 2 { 1 } else { 3 }, pixels }
}

/// Grey raster of a histogram of byte pairs, with the sum of the counts and
/// the number of distinct pairs (the average count is their quotient).
pub fn generate_image(dihistogram: &Histogram) -> (r: (Raster, usize, usize))
    requires
        dihistogram.wf(),
        dihistogram.spec_dimension() == 2,
    ensures
        r.0@.len() == CELLS,
        r.0.spec_channels() == 1,
        forall|p: int| 0 <= p < CELLS ==> #[trigger] r.0@[p] == raster_pixel(dihistogram@, 2, p),
        r.1 == sum_counts(dihistogram@),
        r.2 == dihistogram@.len(),
{
    let raster = rasterize(dihistogram);
    (raster, dihistogram.total(), dihistogram.len())
}

/// Colour raster of a histogram of byte triples, with the sum of the counts
/// and the number of distinct triples.
pub fn generate_color_image(trihistogram: &Histogram) -> (r: (Raster, usize, usize))
    requires
        trihistogram.wf(),
        trihistogram.spec_dimension() == 3,
    ensures
        r.0@.len() == CELLS,
        r.0.spec_channels() == 3,
        forall|p: int| 0 <= p < CELLS ==> #[trigger] r.0@[p] == raster_pixel(trihistogram@, 3, p),
        r.1 == sum_counts(trihistogram@),
        r.2 == trihistogram@.len(),
{
    let raster = rasterize(trihistogram);
    (raster, trihistogram.total(), trihistogram.len())
}

/// An empty histogram draws an all-black raster, and its counts sum to zero.
pub proof fn lemma_empty_raster_is_black(s: Seq<(Seq<u8>, nat)>, dimension: nat)
    requires
        s.len() == 0,
    ensures
        sum_counts(s) == 0,
        forall|p: int| 0 <= p < CELLS ==> #[trigger] raster_pixel(s, dimension, p) == (0u16, 0u16, 0u16),
{
}

/// In a colour raster every cell that some triple falls on carries the
/// presence mark, so it is never black; every other cell is black.
pub proof fn lemma_color_cells_marked(s: Seq<(Seq<u8>, nat)>, p: int)
    requires
        well_shaped(s, 3),
        0 <= p < CELLS,
    ensures
        (exists|i: int| 0 <= i < s.len() && on_cell(#[trigger] s[i].0, p % 256, p / 256))
            ==> raster_pixel(s, 3, p).1 == PRESENCE,
        !(exists|i: int| 0 <= i < s.len() && on_cell(#[trigger] s[i].0, p % 256, p / 256))
            ==> raster_pixel(s, 3, p) == (0u16, 0u16, 0u16),
{
    lemma_last_on_cell(s, p % 256, p / 256, s.len() as int);
}

proof fn lemma_last_on_cell(s: Seq<(Seq<u8>, nat)>, x: int, y: int, upto: int)
    requires
        0 <= upto <= s.len(),
    ensures
        last_on_cell(s, x, y, upto) < upto,
        last_on_cell(s, x, y, upto) >= 0 ==> on_cell(s[last_on_cell(s, x, y, upto)].0, x, y),
        (exists|i: int| 0 <= i < upto && on_cell(#[trigger] s[i].0, x, y)) <==> last_on_cell(s, x, y, upto) >= 0,
    decreases upto,
{
    if upto > 0 {
        lemma_last_on_cell(s, x, y, upto - 1);
        if on_cell(s[upto - 1].0, x, y) {
            assert(on_cell(s[upto - 1].0, x, y));
        } else {
            if exists|i: int| 0 <= i < upto && on_cell(#[trigger] s[i].0, x, y) {
                let i = choose|i: int| 0 <= i < upto && on_cell(#[trigger] s[i].0, x, y);
                assert(i < upto - 1);
            }
        }
    }
}

} // verus!
