//! Signature extraction: a decoded pixel grid is resampled onto a small
//! canonical grid of block averages, and every pair of adjacent cells is
//! encoded as one relative-brightness bit. The result is a fixed-length
//! perceptual fingerprint, deterministic in the pixel data.
use vstd::prelude::*;

use vstd::arithmetic::div_mod::{
    lemma_div_is_ordered, lemma_div_multiples_vanish, lemma_fundamental_div_mod,
    lemma_div_pos_is_pos, lemma_mod_bound,
};
use vstd::arithmetic::mul::{lemma_mul_inequality, lemma_mul_upper_bound};

use crate::grid::{GridView, PixelGrid};
use crate::Error;

verus! {

/// Side length of the canonical cell grid an image is resampled onto.
pub const GRID_DIM: usize = 8;

/// Number of cells of the canonical grid.
pub const CELL_COUNT: usize = 64;

/// Length of a fingerprint in bits: one bit per horizontally adjacent cell
/// pair and one per vertically adjacent pair.
pub const FP_BITS: usize = 112;

/// First pixel row (or column) of canonical band `k` along a dimension of
/// `dim` pixels.
pub open spec fn band_lower(k: int, dim: int) -> int {
    k * dim / 8
}

/// One past the last pixel row (or column) of canonical band `k`; bands are
/// widened to at least one pixel so that every cell has samples.
pub open spec fn band_upper(k: int, dim: int) -> int {
    let lo = band_lower(k, dim);
    let hi = (k + 1) * dim / 8;
    if hi <= lo {
        lo + 1
    } else {
        hi
    }
}

/// Sum of the samples of row `r` over columns `c0 <= c < c1`.
pub open spec fn row_sum(g: GridView, r: int, c0: int, c1: int) -> int
    decreases c1 - c0,
{
    if c1 <= c0 {
        0
    } else {
        row_sum(g, r, c0, c1 - 1) + g.sample(r, c1 - 1)
    }
}

/// Sum of the samples of the block with rows `r0 <= r < r1` and columns
/// `c0 <= c < c1`.
pub open spec fn block_sum(g: GridView, r0: int, r1: int, c0: int, c1: int) -> int
    decreases r1 - r0,
{
    if r1 <= r0 {
        0
    } else {
        block_sum(g, r0, r1 - 1, c0, c1) + row_sum(g, r1 - 1, c0, c1)
    }
}

/// Average brightness of canonical cell `(r, c)`: the mean of the samples of
/// its pixel block.
pub open spec fn cell_value(g: GridView, r: int, c: int) -> int {
    let r0 = band_lower(r, g.height as int);
    let r1 = band_upper(r, g.height as int);
    let c0 = band_lower(c, g.width as int);
    let c1 = band_upper(c, g.width as int);
    block_sum(g, r0, r1, c0, c1) / ((r1 - r0) * (c1 - c0))
}

/// The canonical cell grid of an image, in row-major order.
pub open spec fn cell_grid(g: GridView) -> Seq<int> {
    Seq::new(64, |i: int| cell_value(g, i / 8, i % 8))
}

/// Bit `i` of a fingerprint: the first 56 bits compare horizontally adjacent
/// cells, the remaining 56 compare vertically adjacent cells.
pub open spec fn pair_bit(cells: Seq<int>, i: int) -> bool {
    if i < 56 {
        let r = i / 7;
        let c = i % 7;
        cells[r * 8 + c] >= cells[r * 8 + c + 1]
    } else {
        let r = (i - 56) / 8;
        let c = (i - 56) % 8;
        cells[r * 8 + c] >= cells[(r + 1) * 8 + c]
    }
}

/// The fingerprint of a non-degenerate image, as a sequence of `FP_BITS` bits.
pub open spec fn spec_extract(g: GridView) -> Seq<bool> {
    Seq::new(112, |i: int| pair_bit(cell_grid(g), i))
}

/// A fixed-length perceptual fingerprint: a bit vector of `FP_BITS` bits.
pub struct Fingerprint {
    pub bits: Vec<bool>,
}

impl View for Fingerprint {
    type V = Seq<bool>;

    open spec fn view(&self) -> Seq<bool> {
        self.bits@
    }
}

impl Fingerprint {
    /// A fingerprint holds exactly `FP_BITS` bits.
    pub open spec fn wf(self) -> bool {
        self@.len() == FP_BITS
    }

    /// Returns a copy holding the same bits.
    pub fn duplicate(&self) -> (r: Fingerprint)
        ensures
            r@ == self@,
    {
        let bits = self.bits.clone();
        proof {
            assert(bits@ =~= self.bits@);
        }
        Fingerprint { bits }
    }
}

/// A band is non-empty and lies inside the image dimension.
proof fn lemma_band(k: int, dim: int)
    requires
        0 <= k < 8,
        dim >= 1,
    ensures
        0 <= band_lower(k, dim),
        band_lower(k, dim) < band_upper(k, dim),
        band_upper(k, dim) <= dim,
{
    let lo = band_lower(k, dim);
    let hi = (k + 1) * dim / 8;
    lemma_div_pos_is_pos(k * dim, 8);
    assert(k * dim >= 0) by (nonlinear_arith)
        requires
            k >= 0,
            dim >= 0,
    ;
    // lo < dim: from 8 * lo <= k * dim <= 7 * dim < 8 * dim.
    lemma_fundamental_div_mod(k * dim, 8);
    lemma_mod_bound(k * dim, 8);
    lemma_mul_inequality(k, 7, dim);
    assert(8 * lo <= k * dim);
    assert(lo < dim);
    // hi <= dim: (k + 1) * dim <= 8 * dim, so dividing by 8 keeps the order.
    lemma_mul_inequality(k + 1, 8, dim);
    lemma_div_is_ordered((k + 1) * dim, 8 * dim, 8);
    lemma_div_multiples_vanish(dim, 8);
    assert(8 * dim == dim * 8) by (nonlinear_arith);
    assert((8 * dim) / 8 == dim);
    assert(hi <= dim);
}

/// Row sums lie between 0 and 255 per sample.
proof fn lemma_row_sum_bounds(g: GridView, r: int, c0: int, c1: int)
    requires
        c0 <= c1,
    ensures
        0 <= row_sum(g, r, c0, c1),
        row_sum(g, r, c0, c1) <= 255 * (c1 - c0),
    decreases c1 - c0,
{
    if c1 > c0 {
        lemma_row_sum_bounds(g, r, c0, c1 - 1);
        assert(255 * (c1 - c0) == 255 * (c1 - 1 - c0) + 255) by (nonlinear_arith);
    }
}

/// Block sums lie between 0 and 255 per sample.
proof fn lemma_block_sum_bounds(g: GridView, r0: int, r1: int, c0: int, c1: int)
    requires
        r0 <= r1,
        c0 <= c1,
    ensures
        0 <= block_sum(g, r0, r1, c0, c1),
        block_sum(g, r0, r1, c0, c1) <= 255 * ((r1 - r0) * (c1 - c0)),
    decreases r1 - r0,
{
    if r1 > r0 {
        lemma_block_sum_bounds(g, r0, r1 - 1, c0, c1);
        lemma_row_sum_bounds(g, r1 - 1, c0, c1);
        assert(255 * ((r1 - r0) * (c1 - c0)) == 255 * ((r1 - 1 - r0) * (c1 - c0)) + 255 * (c1
            - c0)) by (nonlinear_arith);
    }
}

/// Computes the average brightness of canonical cell `(r, c)`.
#[verifier::loop_isolation(false)]
fn compute_cell(grid: &PixelGrid, r: usize, c: usize) -> (v: u8)
    requires
        grid.wf(),
        grid@.width >= 1,
        grid@.height >= 1,
        r < 8,
        c < 8,
    ensures
        v == cell_value(grid@, r as int, c as int),
{
    let w = grid.width;
    let h = grid.height;
    let total = grid.pixels.len();
    proof {
        lemma_band(r as int, h as int);
        lemma_band(c as int, w as int);
    }
    let r0_wide: u128 = (r as u128) * (h as u128) / 8;
    let mut r1_wide: u128 = ((r as u128) + 1) * (h as u128) / 8;
    if r1_wide <= r0_wide {
        r1_wide = r0_wide + 1;
    }
    let c0_wide: u128 = (c as u128) * (w as u128) / 8;
    let mut c1_wide: u128 = ((c as u128) + 1) * (w as u128) / 8;
    if c1_wide <= c0_wide {
        c1_wide = c0_wide + 1;
    }
    proof {
        assert(r0_wide == band_lower(r as int, h as int));
        assert(r1_wide == band_upper(r as int, h as int));
        assert(c0_wide == band_lower(c as int, w as int));
        assert(c1_wide == band_upper(c as int, w as int));
    }
    let r0 = r0_wide as usize;
    let r1 = r1_wide as usize;
    let c0 = c0_wide as usize;
    let c1 = c1_wide as usize;
    let ghost g = grid@;
    proof {
        assert(r0 < r1 <= h);
        assert(c0 < c1 <= w);
        assert((h as int) * (w as int) == (w as int) * (h as int)) by (nonlinear_arith);
        assert((w as int) * (h as int) == g.pixels.len());
        assert(g.pixels.len() == total);
        lemma_mul_upper_bound((r1 - r0) as int, h as int, (c1 - c0) as int, w as int);
    }
    let mut sum: u128 = 0;
    let mut rr = r0;
    while rr < r1
        invariant
            r0 <= rr <= r1,
            sum == block_sum(g, r0 as int, rr as int, c0 as int, c1 as int),
        decreases r1 - rr,
    {
        let mut cc = c0;
        proof {
            lemma_block_sum_bounds(g, r0 as int, rr as int, c0 as int, c1 as int);
            lemma_mul_upper_bound((rr - r0) as int, h as int, (c1 - c0) as int, w as int);
            lemma_mul_upper_bound(h as int, h as int, w as int, w as int);
        }
        while cc < c1
            invariant
                c0 <= cc <= c1,
                rr < r1,
                sum == block_sum(g, r0 as int, rr as int, c0 as int, c1 as int) + row_sum(
                    g,
                    rr as int,
                    c0 as int,
                    cc as int,
                ),
            decreases c1 - cc,
        {
            proof {
                lemma_block_sum_bounds(g, r0 as int, rr as int, c0 as int, c1 as int);
                lemma_row_sum_bounds(g, rr as int, c0 as int, cc as int);
                lemma_mul_upper_bound((rr - r0) as int, h as int, (c1 - c0) as int, w as int);
                lemma_mul_upper_bound(h as int, h as int, w as int, w as int);
                lemma_mul_upper_bound((cc - c0) as int, w as int, 1, 1);
                // The flat index stays inside the sample buffer.
                lemma_mul_inequality(rr as int, (h - 1) as int, w as int);
                assert(((h - 1) as int) * (w as int) + w == (h as int) * (w as int))
                    by (nonlinear_arith);
                assert(rr * w + cc < g.pixels.len());
            }
            let px = grid.pixels[rr * w + cc];
            sum = sum + (px as u128);
            cc = cc + 1;
        }
        rr = rr + 1;
    }
    proof {
        lemma_block_sum_bounds(g, r0 as int, r1 as int, c0 as int, c1 as int);
        lemma_mul_upper_bound((r1 - r0) as int, h as int, (c1 - c0) as int, w as int);
        assert(((r1 - r0) as int) * ((c1 - c0) as int) <= g.pixels.len());
    }
    let count: u128 = ((r1 - r0) as u128) * ((c1 - c0) as u128);
    proof {
        assert(((r1 - r0) as int) * ((c1 - c0) as int) >= 1) by (nonlinear_arith)
            requires
                r1 - r0 >= 1,
                c1 - c0 >= 1,
        ;
    }
    let avg = sum / count;
    proof {
        let cnt = count as int;
        lemma_div_is_ordered(sum as int, 255 * cnt, cnt);
        lemma_div_multiples_vanish(255, cnt);
        assert(255 * cnt == cnt * 255) by (nonlinear_arith);
        assert(avg <= 255);
        lemma_div_pos_is_pos(sum as int, cnt);
    }
    avg as u8
}

/// Derives the perceptual fingerprint of a decoded image: the canonical cell
/// grid is computed by block averaging, then each pair of adjacent cells
/// yields one relative-brightness bit. Identical pixel data always yields an
/// identical fingerprint; a zero-area grid is rejected and never yields a
/// default fingerprint.
#[verifier::loop_isolation(false)]
pub fn compute_signature(grid: &PixelGrid) -> (r: Result<Fingerprint, Error>)
    requires
        grid.wf(),
    ensures
        match r {
            Ok(fp) => grid@.width >= 1 && grid@.height >= 1 && fp.wf() && fp@ == spec_extract(
                grid@,
            ),
            Err(e) => (grid@.width == 0 || grid@.height == 0) && e == Error::Decode,
        },
{
    if grid.width == 0 || grid.height == 0 {
        return Err(Error::Decode);
    }
    let ghost g = grid@;
    let ghost gcells = cell_grid(g);

    let mut cells: Vec<u8> = Vec::new();
    let mut r: usize = 0;
    while r < GRID_DIM
        invariant
            r <= 8,
            cells@.len() == r * 8,
            forall|i: int| 0 <= i < cells@.len() ==> cells@[i] == gcells[i],
        decreases 8 - r,
    {
        let mut c: usize = 0;
        while c < GRID_DIM
            invariant
                r < 8,
                c <= 8,
                cells@.len() == r * 8 + c,
                forall|i: int| 0 <= i < cells@.len() ==> cells@[i] == gcells[i],
            decreases 8 - c,
        {
            let v = compute_cell(grid, r, c);
            cells.push(v);
            proof {
                let i = r * 8 + c;
                assert(i / 8 == r && i % 8 == c) by (nonlinear_arith)
                    requires
                        r < 8,
                        c < 8,
                        i == r * 8 + c,
                ;
                assert(gcells[i as int] == cell_value(g, r as int, c as int));
            }
            c = c + 1;
        }
        r = r + 1;
    }
    assert(cells@.len() == CELL_COUNT);

    let mut bits: Vec<bool> = Vec::new();
    // Horizontal pairs: cell (r, c) against cell (r, c + 1).
    let mut r: usize = 0;
    while r < 8
        invariant
            r <= 8,
            cells@.len() == 64,
            forall|i: int| 0 <= i < 64 ==> cells@[i] == gcells[i],
            bits@.len() == r * 7,
            forall|i: int| 0 <= i < bits@.len() ==> bits@[i] == pair_bit(gcells, i),
        decreases 8 - r,
    {
        let mut c: usize = 0;
        while c < 7
            invariant
                r < 8,
                c <= 7,
                bits@.len() == r * 7 + c,
                forall|i: int| 0 <= i < bits@.len() ==> bits@[i] == pair_bit(gcells, i),
            decreases 7 - c,
        {
            let b = cells[r * 8 + c] >= cells[r * 8 + c + 1];
            bits.push(b);
            proof {
                let i = r * 7 + c;
                assert(i / 7 == r && i % 7 == c) by (nonlinear_arith)
                    requires
                        r < 8,
                        c < 7,
                        i == r * 7 + c,
                ;
                assert(i < 56);
                assert(b == pair_bit(gcells, i as int));
            }
            c = c + 1;
        }
        r = r + 1;
    }
    // Vertical pairs: cell (r, c) against cell (r + 1, c).
    let mut r: usize = 0;
    while r < 7
        invariant
            r <= 7,
            cells@.len() == 64,
            forall|i: int| 0 <= i < 64 ==> cells@[i] == gcells[i],
            bits@.len() == 56 + r * 8,
            forall|i: int| 0 <= i < bits@.len() ==> bits@[i] == pair_bit(gcells, i),
        decreases 7 - r,
    {
        let mut c: usize = 0;
        while c < 8
            invariant
                r < 7,
                c <= 8,
                bits@.len() == 56 + r * 8 + c,
                forall|i: int| 0 <= i < bits@.len() ==> bits@[i] == pair_bit(gcells, i),
            decreases 8 - c,
        {
            let b = cells[r * 8 + c] >= cells[(r + 1) * 8 + c];
            bits.push(b);
            proof {
                let i = 56 + r * 8 + c;
                let j = i - 56;
                assert(j / 8 == r && j % 8 == c) by (nonlinear_arith)
                    requires
                        r < 7,
                        c < 8,
                        j == r * 8 + c,
                ;
                assert(b == pair_bit(gcells, i as int));
            }
            c = c + 1;
        }
        r = r + 1;
    }
    proof {
        assert(bits@ =~= spec_extract(g));
    }
    Ok(Fingerprint { bits })
}

/// Determinism of extraction: two fingerprints derived from the same decoded
/// image are identical.
pub proof fn lemma_extract_deterministic(g: GridView, fp1: Seq<bool>, fp2: Seq<bool>)
    requires
        fp1 == spec_extract(g),
        fp2 == spec_extract(g),
    ensures
        fp1 == fp2,
{
}

} // verus!
