//! Partition of the output image into contiguous horizontal bands, one
//! per worker, so that the bands can be rendered independently.

use vstd::prelude::*;
use vstd::arithmetic::div_mod::lemma_div_is_ordered_by_denominator;
use vstd::arithmetic::div_mod::lemma_div_non_zero;
use vstd::arithmetic::div_mod::lemma_fundamental_div_mod;
use vstd::arithmetic::div_mod::lemma_small_mod;

verus! {

/// Number of pixel rows each band gets: the image height divided by the
/// worker count, rounded up so the bands cover the whole image.
pub open spec fn rows_per_band_spec(height: nat, workers: nat) -> nat
    recommends
        workers > 0,
{
    if height % workers == 0 {
        height / workers
    } else {
        height / workers + 1
    }
}

/// Rows per band, exactly as `rows_per_band_spec` says; positive as soon
/// as the image has any rows.
pub fn rows_per_band(height: usize, workers: usize) -> (r: usize)
    requires
        workers > 0,
    ensures
        r == rows_per_band_spec(height as nat, workers as nat),
        height > 0 ==> r > 0,
{
    proof {
        lemma_fundamental_div_mod(height as int, workers as int);
        if height as int % workers as int != 0 {
            assert(workers >= 2);
            lemma_div_is_ordered_by_denominator(height as int, 2, workers as int);
        }
    }
    if height % workers == 0 {
        proof {
            if height > 0 {
                if height < workers {
                    lemma_small_mod(height as nat, workers as nat);
                } else {
                    lemma_div_non_zero(height as int, workers as int);
                }
            }
        }
        height / workers
    } else {
        height / workers + 1
    }
}

/// The bands cut the pixel rows `from .. to` into consecutive, nonempty
/// slices: the first starts at `from`, each next one starts where the
/// one before it ends, and the last ends at `to`.
pub open spec fn covers_rows(bands: Seq<(usize, usize)>, from: int, to: int) -> bool {
    &&& from <= to
    &&& (bands.len() == 0 ==> from == to)
    &&& (bands.len() > 0 ==> bands[0].0 == from)
    &&& (bands.len() > 0 ==> bands[bands.len() - 1].0 + bands[bands.len() - 1].1 == to)
    &&& (forall|i: int|
        0 <= i < bands.len() - 1 ==> (#[trigger] bands[i]).0 + bands[i].1 == bands[i + 1].0)
    &&& (forall|i: int| 0 <= i < bands.len() ==> (#[trigger] bands[i]).1 > 0)
}

/// The bands tile the whole image: all rows `0 .. height`.
pub open spec fn tiles(bands: Seq<(usize, usize)>, height: int) -> bool {
    covers_rows(bands, 0, height)
}

/// Split the image rows into bands of `rows_per_band` rows each, the
/// last band shorter when the height does not divide evenly. Each band
/// is a pair of its first row and its number of rows.
pub fn band_partition(height: usize, workers: usize) -> (bands: Vec<(usize, usize)>)
    requires
        workers > 0,
    ensures
        tiles(bands@, height as int),
        forall|i: int|
            0 <= i < bands@.len() ==> (#[trigger] bands@[i]).0 == i * rows_per_band_spec(
                height as nat,
                workers as nat,
            ),
        forall|i: int|
            0 <= i < bands@.len() ==> (#[trigger] bands@[i]).1 == vstd::math::min(
                rows_per_band_spec(height as nat, workers as nat) as int,
                height - bands@[i].0,
            ),
{
    let rpb = rows_per_band(height, workers);
    let ghost rpb_s = rows_per_band_spec(height as nat, workers as nat);
    let mut bands: Vec<(usize, usize)> = Vec::new();
    let mut top: usize = 0;
    proof {
        assert(bands@.len() as int * rpb_s as int == 0) by (nonlinear_arith)
            requires bands@.len() == 0;
    }
    while top < height
        invariant
            workers > 0,
            rpb == rpb_s,
            height > 0 ==> rpb > 0,
            top <= height,
            top as int == vstd::math::min(bands@.len() as int * rpb_s as int, height as int),
            covers_rows(bands@, 0, top as int),
            forall|i: int| 0 <= i < bands@.len() ==> (#[trigger] bands@[i]).0 == i * rpb_s,
            forall|i: int|
                0 <= i < bands@.len() ==> (#[trigger] bands@[i]).1 == vstd::math::min(
                    rpb_s as int,
                    height - bands@[i].0,
                ),
        decreases height - top,
    {
        proof {
            assert(bands@.len() * rpb_s >= top);
            assert(top == bands@.len() * rpb_s);
        }
        let h = if height - top < rpb {
            height - top
        } else {
            rpb
        };
        let ghost old_bands = bands@;
        bands.push((top, h));
        proof {
            assert(bands@ =~= old_bands.push((top, h)));
            assert((old_bands.len() + 1) * rpb_s == old_bands.len() * rpb_s + rpb_s)
                by (nonlinear_arith);
        }
        top = top + h;
    }
    bands
}

/// A later band begins at or after the end of an earlier one.
pub(crate) proof fn lemma_tiles_ordered(bands: Seq<(usize, usize)>, from: int, to: int, i: int, j: int)
    requires
        covers_rows(bands, from, to),
        0 <= i < j < bands.len(),
    ensures
        bands[i].0 + bands[i].1 <= bands[j].0,
    decreases j - i,
{
    if i + 1 < j {
        lemma_tiles_ordered(bands, from, to, i, j - 1);
    }
}

/// Every band of a tiling lies inside the covered row range.
pub proof fn lemma_tiles_ordered_end(bands: Seq<(usize, usize)>, from: int, to: int, i: int)
    requires
        covers_rows(bands, from, to),
        0 <= i < bands.len(),
    ensures
        from <= bands[i].0,
        bands[i].0 + bands[i].1 <= to,
{
    if i > 0 {
        lemma_tiles_ordered(bands, from, to, 0, i);
    }
    if i < bands.len() - 1 {
        lemma_tiles_ordered(bands, from, to, i, bands.len() - 1);
    }
}

/// Tiling law, coverage half: every pixel row of the image lies inside
/// at least one band of any tiling partition.
pub proof fn lemma_tiles_cover(bands: Seq<(usize, usize)>, height: int, row: int)
    requires
        tiles(bands, height),
        0 <= row < height,
    ensures
        exists|i: int|
            0 <= i < bands.len() && (#[trigger] bands[i]).0 <= row < bands[i].0 + bands[i].1,
    decreases bands.len(),
{
    let k = bands.len() - 1;
    if bands[k].0 <= row {
        assert(bands[k].0 <= row < bands[k].0 + bands[k].1);
    } else {
        let t = bands.drop_last();
        assert(covers_rows(t, 0, bands[k].0 as int)) by {
            assert(forall|i: int| 0 <= i < t.len() ==> t[i] == bands[i]);
            if t.len() > 0 {
                assert(bands[k - 1].0 + bands[k - 1].1 == bands[k].0);
            }
        }
        lemma_tiles_cover(t, bands[k].0 as int, row);
        let w = choose|i: int| 0 <= i < t.len() && (#[trigger] t[i]).0 <= row < t[i].0 + t[i].1;
        assert(bands[w].0 <= row < bands[w].0 + bands[w].1);
    }
}

/// Tiling law, disjointness half: no pixel row lies inside two distinct
/// bands of a tiling partition.
pub proof fn lemma_tiles_disjoint(bands: Seq<(usize, usize)>, height: int, i: int, j: int, row: int)
    requires
        tiles(bands, height),
        0 <= i < bands.len(),
        0 <= j < bands.len(),
        bands[i].0 <= row < bands[i].0 + bands[i].1,
        bands[j].0 <= row < bands[j].0 + bands[j].1,
    ensures
        i == j,
{
    if i < j {
        lemma_tiles_ordered(bands, 0, height, i, j);
    }
    if j < i {
        lemma_tiles_ordered(bands, 0, height, j, i);
    }
}

} // verus!
