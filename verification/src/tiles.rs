//! Partitioning the raster into horizontal bands and reassembling the
//! band buffers, in order, into one flat row-major pixel buffer.

use vstd::prelude::*;
use vstd::arithmetic::div_mod::lemma_fundamental_div_mod;

verus! {

/// Total number of rows covered by a list of bands, each band given as a
/// `(top row, row count)` pair.
pub open spec fn bands_total(bands: Seq<(usize, usize)>) -> int
    decreases bands.len(),
{
    if bands.len() == 0 {
        0
    } else {
        bands_total(bands.drop_last()) + bands.last().1
    }
}

/// The bands tile the rows `0..height` without gap or overlap: the first
/// starts at row 0, each next band starts where the previous one ends,
/// and the last one ends at `height`.
pub open spec fn bands_partition(bands: Seq<(usize, usize)>, height: int) -> bool {
    &&& bands.len() > 0
    &&& bands[0].0 == 0
    &&& forall|k: int|
        1 <= k < bands.len() ==> (#[trigger] bands[k]).0 == bands[k - 1].0 + bands[k - 1].1
    &&& bands.last().0 + bands.last().1 == height
}

/// Rows each band gets when `height` rows are shared among `workers`
/// parallel workers: the ceiling of `height / workers`, so that `workers`
/// bands always suffice and all but the last are full.
pub fn rows_per_band(height: usize, workers: usize) -> (r: usize)
    requires
        height >= 1,
        workers >= 1,
    ensures
        r >= 1,
        r * workers >= height,
        (r - 1) * workers < height,
{
    let q: usize = height / workers;
    let rem: usize = height % workers;
    proof {
        lemma_fundamental_div_mod(height as int, workers as int);
        assert(height == workers * q + rem);
        if rem == 0 {
            assert(q * workers == height && q >= 1) by (nonlinear_arith)
                requires
                    height == workers * q + rem,
                    rem == 0,
                    workers >= 1,
                    height >= 1,
                    q >= 0,
            ;
            assert((q - 1) * workers == height - workers) by (nonlinear_arith)
                requires
                    q * workers == height,
            ;
        } else {
            assert(q * workers < height && (q + 1) * workers >= height && q < height)
                by (nonlinear_arith)
                requires
                    height == workers * q + rem,
                    0 < rem < workers,
                    q >= 0,
                    height >= 1,
            ;
        }
    }
    if rem == 0 {
        q
    } else {
        q + 1
    }
}

/// Split `height` rows into contiguous bands of `rows_per_band` rows, the
/// last band absorbing the remainder. The bands are disjoint, jointly
/// cover every row, and their row counts sum to exactly `height`.
pub fn band_ranges(height: usize, rows_per_band: usize) -> (r: Vec<(usize, usize)>)
    requires
        height >= 1,
        rows_per_band >= 1,
    ensures
        bands_partition(r@, height as int),
        bands_total(r@) == height,
        forall|k: int| 0 <= k < r@.len() ==> 1 <= (#[trigger] r@[k]).1 <= rows_per_band,
        forall|k: int| 0 <= k < r@.len() - 1 ==> (#[trigger] r@[k]).1 == rows_per_band,
{
    let mut out: Vec<(usize, usize)> = Vec::new();
    let mut top: usize = 0;
    while top < height
        invariant
            top <= height,
            rows_per_band >= 1,
            bands_total(out@) == top,
            out@.len() == 0 ==> top == 0,
            out@.len() > 0 ==> out@[0].0 == 0,
            out@.len() > 0 ==> out@.last().0 + out@.last().1 == top,
            forall|k: int|
                1 <= k < out@.len() ==> (#[trigger] out@[k]).0 == out@[k - 1].0 + out@[k - 1].1,
            forall|k: int| 0 <= k < out@.len() ==> 1 <= (#[trigger] out@[k]).1 <= rows_per_band,
            forall|k: int| 0 <= k < out@.len() - 1 ==> (#[trigger] out@[k]).1 == rows_per_band,
            top < height && out@.len() > 0 ==> out@.last().1 == rows_per_band,
        decreases height - top,
    {
        let remaining: usize = height - top;
        let bh: usize = if remaining >= rows_per_band {
            rows_per_band
        } else {
            remaining
        };
        proof {
            assert(out@.push((top, bh)).drop_last() =~= out@);
        }
        out.push((top, bh));
        top = top + bh;
    }
    out
}

/// Band ends never pass the start of the last band.
proof fn lemma_band_ends_before_last(ranges: Seq<(usize, usize)>)
    requires
        forall|k: int|
            1 <= k < ranges.len() ==> (#[trigger] ranges[k]).0 == ranges[k - 1].0 + ranges[k - 1].1,
    ensures
        forall|j: int|
            0 <= j < ranges.len() - 1 ==> (#[trigger] ranges[j]).0 + ranges[j].1
                <= ranges.last().0,
    decreases ranges.len(),
{
    if ranges.len() >= 2 {
        let dl = ranges.drop_last();
        lemma_band_ends_before_last(dl);
        assert forall|j: int|
            0 <= j < ranges.len() - 1 implies (#[trigger] ranges[j]).0 + ranges[j].1
            <= ranges.last().0 by {
            if j < ranges.len() - 2 {
                assert(ranges[j] == dl[j]);
                assert(dl[j].0 + dl[j].1 <= dl.last().0);
                assert(dl.last() == ranges[ranges.len() - 2]);
                assert(ranges.last().0 == ranges[ranges.len() - 2].0 + ranges[ranges.len() - 2].1);
            }
        }
    }
}

/// Reassembly law: when each piece holds exactly the stretch of the full
/// buffer that its `(start, length)` range covers, and the ranges tile the
/// buffer from front to back, concatenating the pieces in order
/// reproduces the full buffer.
pub proof fn lemma_bands_reassemble<T>(bands: Seq<Seq<T>>, ranges: Seq<(usize, usize)>, full: Seq<T>)
    requires
        bands.len() == ranges.len(),
        ranges.len() > 0,
        ranges[0].0 == 0,
        forall|k: int|
            1 <= k < ranges.len() ==> (#[trigger] ranges[k]).0 == ranges[k - 1].0 + ranges[k - 1].1,
        full.len() == ranges.last().0 + ranges.last().1,
        forall|k: int|
            0 <= k < ranges.len() ==> #[trigger] bands[k] == full.subrange(
                ranges[k].0 as int,
                ranges[k].0 + ranges[k].1,
            ),
    ensures
        bands.flatten() == full,
    decreases bands.len(),
{
    if bands.len() == 1 {
        bands.lemma_flatten_one_element();
        assert(bands[0] == full.subrange(0, full.len() as int));
        assert(full.subrange(0, full.len() as int) =~= full);
    } else {
        let m = ranges.len() - 1;
        let cut = ranges.last().0 as int;
        lemma_band_ends_before_last(ranges);
        let full0 = full.subrange(0, cut);
        let dlb = bands.drop_last();
        let dlr = ranges.drop_last();
        assert(dlr.last() == ranges[m - 1]);
        assert(ranges[m].0 == ranges[m - 1].0 + ranges[m - 1].1);
        assert forall|k: int|
            0 <= k < dlr.len() implies #[trigger] dlb[k] == full0.subrange(
            dlr[k].0 as int,
            dlr[k].0 + dlr[k].1,
        ) by {
            assert(dlb[k] == bands[k]);
            assert(dlr[k] == ranges[k]);
            assert(ranges[k].0 + ranges[k].1 <= cut);
            assert(full0.subrange(ranges[k].0 as int, ranges[k].0 + ranges[k].1) =~= full.subrange(
                ranges[k].0 as int,
                ranges[k].0 + ranges[k].1,
            ));
        }
        lemma_bands_reassemble(dlb, dlr, full0);
        bands.lemma_flatten_and_flatten_alt_are_equivalent();
        dlb.lemma_flatten_and_flatten_alt_are_equivalent();
        assert(bands.flatten_alt() == dlb.flatten_alt() + bands.last());
        assert(bands.last() == full.subrange(cut, full.len() as int));
        assert(full0 + full.subrange(cut, full.len() as int) =~= full);
    }
}

/// Flatten a grid of rows into one contiguous buffer: the rows
/// concatenated in order.
pub fn vec_2d_to_1d(v: Vec<Vec<u8>>) -> (r: Vec<u8>)
    ensures
        r@ == v.deep_view().flatten(),
{
    let mut r: Vec<u8> = Vec::new();
    let mut i: usize = 0;
    while i < v.len()
        invariant
            i <= v@.len(),
            r@ == v.deep_view().subrange(0, i as int).flatten(),
        decreases v@.len() - i,
    {
        let row = &v[i];
        proof {
            assert(v.deep_view()[i as int] =~= row@);
        }
        let mut j: usize = 0;
        while j < row.len()
            invariant
                j <= row@.len(),
                i < v@.len(),
                v.deep_view()[i as int] == row@,
                r@ == v.deep_view().subrange(0, i as int).flatten() + row@.subrange(0, j as int),
            decreases row@.len() - j,
        {
            r.push(row[j]);
            proof {
                assert(row@.subrange(0, j + 1) =~= row@.subrange(0, j as int).push(row@[j as int]));
            }
            j = j + 1;
        }
        proof {
            assert(row@.subrange(0, row@.len() as int) =~= row@);
            v.deep_view().subrange(0, i as int).lemma_flatten_push(row@);
            assert(v.deep_view().subrange(0, i as int).push(row@) =~= v.deep_view().subrange(
                0,
                i + 1,
            ));
        }
        i = i + 1;
    }
    proof {
        assert(v.deep_view().subrange(0, v@.len() as int) =~= v.deep_view());
    }
    r
}

} // verus!
