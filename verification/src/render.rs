//! Turning escape counts into grayscale pixels: one intensity byte per
//! pixel, for the whole raster at once or band by band as the parallel
//! tiler does.

use vstd::prelude::*;
use vstd::arithmetic::mul::lemma_mul_inequality;

verus! {

/// Grayscale intensity of one pixel, from its escape count: a point that
/// never escaped within the limit is black, a point that escaped at
/// iteration `i` gets `255 - min(i, 255)`, so points that escape sooner
/// are brighter.
pub open spec fn intensity_spec(e: Option<u32>) -> u8 {
    match e {
        None => 0u8,
        Some(i) => if i >= 255 {
            0u8
        } else {
            (255 - i) as u8
        },
    }
}

/// Convert one escape count into its grayscale intensity byte.
pub fn intensity(e: Option<u32>) -> (r: u8)
    ensures
        r == intensity_spec(e),
{
    match e {
        None => 0,
        Some(i) => if i >= 255 {
            0
        } else {
            (255 - i) as u8
        },
    }
}

/// Fill a raster (the whole image, or one band with its own local height)
/// from its escape counts: the byte at flat offset `row * width + col` is
/// the intensity of the count at that offset.
pub fn render(counts: &Vec<Option<u32>>, width: usize, height: usize) -> (r: Vec<u8>)
    requires
        counts@.len() == width * height,
    ensures
        r@.len() == counts@.len(),
        forall|k: int| 0 <= k < r@.len() ==> r@[k] == intensity_spec(counts@[k]),
{
    let mut out: Vec<u8> = Vec::new();
    let mut row: usize = 0;
    while row < height
        invariant
            row <= height,
            counts@.len() == width * height,
            out@.len() == row * width,
            forall|k: int| 0 <= k < out@.len() ==> out@[k] == intensity_spec(counts@[k]),
        decreases height - row,
    {
        let mut col: usize = 0;
        proof {
            assert(counts.len() == counts@.len());
            lemma_mul_inequality(row + 1, height as int, width as int);
            assert((row + 1) * width == row * width + width && row * width >= 0)
                by (nonlinear_arith)
                requires
                    row >= 0,
                    width >= 0,
            ;
            assert(width * height == height * width) by (nonlinear_arith);
        }
        while col < width
            invariant
                col <= width,
                row < height,
                counts@.len() == width * height,
                counts@.len() <= usize::MAX,
                row * width + width <= counts@.len(),
                out@.len() == row * width + col,
                forall|k: int| 0 <= k < out@.len() ==> out@[k] == intensity_spec(counts@[k]),
            decreases width - col,
        {
            let e: Option<u32> = counts[row * width + col];
            out.push(intensity(e));
            col = col + 1;
        }
        row = row + 1;
        proof {
            assert(row * width == (row - 1) * width + width) by (nonlinear_arith);
        }
    }
    proof {
        assert(height * width == width * height) by (nonlinear_arith);
    }
    out
}

/// Render the raster band by band, each band `rows_per_band` rows (the
/// last one shorter when the division is uneven), and concatenate the
/// bands in row order. The contract is the same as `render`'s: banding
/// does not change a single byte.
pub fn render_banded(counts: &Vec<Option<u32>>, width: usize, height: usize, rows_per_band: usize) -> (r:
    Vec<u8>)
    requires
        counts@.len() == width * height,
        rows_per_band >= 1,
    ensures
        r@.len() == counts@.len(),
        forall|k: int| 0 <= k < r@.len() ==> r@[k] == intensity_spec(counts@[k]),
{
    let mut out: Vec<u8> = Vec::new();
    let mut top: usize = 0;
    proof {
        assert(width * height == height * width) by (nonlinear_arith);
    }
    while top < height
        invariant
            top <= height,
            counts@.len() == width * height,
            counts@.len() == height * width,
            rows_per_band >= 1,
            out@.len() == top * width,
            forall|k: int| 0 <= k < out@.len() ==> out@[k] == intensity_spec(counts@[k]),
        decreases height - top,
    {
        let remaining: usize = height - top;
        let bh: usize = if remaining >= rows_per_band {
            rows_per_band
        } else {
            remaining
        };
        proof {
            assert(counts.len() == counts@.len());
            lemma_mul_inequality(top + bh, height as int, width as int);
            assert((top + bh) * width == top * width + bh * width && top * width >= 0 && bh * width
                >= 0) by (nonlinear_arith)
                requires
                    top >= 0,
                    bh >= 0,
                    width >= 0,
            ;
        }
        let start: usize = top * width;
        let band_len: usize = bh * width;
        let mut band_counts: Vec<Option<u32>> = Vec::new();
        let mut j: usize = 0;
        while j < band_len
            invariant
                j <= band_len,
                counts@.len() <= usize::MAX,
                start + band_len <= counts@.len(),
                band_counts@ =~= counts@.subrange(start as int, start + j),
            decreases band_len - j,
        {
            band_counts.push(counts[start + j]);
            proof {
                assert(counts@.subrange(start as int, start + j + 1) =~= counts@.subrange(
                    start as int,
                    start + j,
                ).push(counts@[start + j]));
            }
            j = j + 1;
        }
        let mut band: Vec<u8> = render(&band_counts, width, bh);
        let ghost old_out = out@;
        out.append(&mut band);
        proof {
            assert forall|k: int| 0 <= k < out@.len() implies out@[k] == intensity_spec(
                counts@[k],
            ) by {
                if k >= old_out.len() {
                    assert(out@[k] == intensity_spec(band_counts@[k - start]));
                    assert(band_counts@[k - start] == counts@[k]);
                }
            }
        }
        top = top + bh;
    }
    out
}

/// Parallelism does not change the image: any two buffers that both
/// satisfy the pointwise intensity contract over the same escape counts —
/// one rendered in a single piece, one reassembled from bands — are
/// byte-identical.
pub proof fn lemma_parallel_render_agrees(a: Seq<u8>, b: Seq<u8>, counts: Seq<Option<u32>>)
    requires
        a.len() == counts.len(),
        b.len() == counts.len(),
        forall|k: int| 0 <= k < a.len() ==> a[k] == intensity_spec(counts[k]),
        forall|k: int| 0 <= k < b.len() ==> b[k] == intensity_spec(counts[k]),
    ensures
        a == b,
{
    assert(a =~= b);
}

} // verus!
