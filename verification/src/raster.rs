//! Shading of per-pixel escape counts into grayscale bytes, and the
//! assembly of independently rendered bands into one image buffer.

use vstd::prelude::*;
use crate::tiling::covers_rows;
use crate::tiling::tiles;

verus! {

/// Iteration limit of the escape loop: counts stay below it, so every
/// escape count fits the brightness scale of one byte.
pub const LIMIT: u32 = 255;

/// Gray value of one pixel: `None` (the point never escaped, presumed in
/// the set) is black; an escape at iteration `i` gives `255 - i`, so the
/// sooner the escape, the brighter the pixel, and never black.
pub open spec fn shade_spec(e: Option<u32>) -> u8
    recommends
        e matches Some(i) ==> i < LIMIT,
{
    match e {
        None => 0,
        Some(i) => if i < 255 {
            (255 - i) as u8
        } else {
            0
        },
    }
}

/// Shade one pixel. An escape count at or beyond the iteration limit
/// cannot arise, so the caller rules it out.
pub fn shade(e: Option<u32>) -> (b: u8)
    requires
        e matches Some(i) ==> i < LIMIT,
    ensures
        b == shade_spec(e),
{
    match e {
        None => 0,
        Some(i) => (255 - i) as u8,
    }
}

/// Pointwise shading of a whole sequence of escape counts.
pub open spec fn shades(counts: Seq<Option<u32>>) -> Seq<u8> {
    counts.map_values(|e: Option<u32>| shade_spec(e))
}

/// Every escape count is below the iteration limit.
pub open spec fn counts_in_limit(counts: Seq<Option<u32>>) -> bool {
    forall|i: int| 0 <= i < counts.len() ==> ((#[trigger] counts[i]) matches Some(c) ==> c
        < LIMIT)
}

/// Render a band: shade its escape counts, row-major, one byte per
/// pixel, into exactly the pointwise shading.
pub fn render_counts(counts: &Vec<Option<u32>>) -> (pixels: Vec<u8>)
    requires
        counts_in_limit(counts@),
    ensures
        pixels@ == shades(counts@),
{
    let n = counts.len();
    let mut pixels: Vec<u8> = Vec::new();
    let mut i: usize = 0;
    while i < n
        invariant
            counts_in_limit(counts@),
            n == counts@.len(),
            0 <= i <= n,
            pixels@.len() == i,
            forall|j: int| 0 <= j < i ==> pixels@[j] == shade_spec(#[trigger] counts@[j]),
        decreases n - i,
    {
        pixels.push(shade(counts[i]));
        i = i + 1;
    }
    proof {
        assert(pixels@ =~= shades(counts@));
    }
    pixels
}

/// Concatenation of a sequence of byte buffers, in order.
pub open spec fn concat_all(parts: Seq<Seq<u8>>) -> Seq<u8>
    decreases parts.len(),
{
    if parts.len() == 0 {
        Seq::empty()
    } else {
        concat_all(parts.drop_last()) + parts.last()
    }
}

/// Appending one more part extends the concatenation at its end.
proof fn lemma_concat_all_snoc(parts: Seq<Seq<u8>>, p: Seq<u8>)
    ensures
        concat_all(parts.push(p)) == concat_all(parts) + p,
{
    assert(parts.push(p).drop_last() =~= parts);
    assert(parts.push(p).last() == p);
}

/// Join rendered bands into the full image buffer: exactly their bytes,
/// in band order.
pub fn assemble(parts: &Vec<Vec<u8>>) -> (out: Vec<u8>)
    ensures
        out@ == concat_all(parts@.map_values(|p: Vec<u8>| p@)),
{
    let ghost views = parts@.map_values(|p: Vec<u8>| p@);
    let mut out: Vec<u8> = Vec::new();
    let mut i: usize = 0;
    while i < parts.len()
        invariant
            views == parts@.map_values(|p: Vec<u8>| p@),
            0 <= i <= parts@.len(),
            out@ == concat_all(views.take(i as int)),
        decreases parts@.len() - i,
    {
        let part = &parts[i];
        let mut j: usize = 0;
        let ghost out_before = out@;
        while j < part.len()
            invariant
                0 <= j <= part@.len(),
                out@ == out_before + part@.take(j as int),
            decreases part@.len() - j,
        {
            out.push(part[j]);
            proof {
                assert(out@ =~= out_before + part@.take(j + 1 as int));
            }
            j = j + 1;
        }
        proof {
            assert(part@.take(part@.len() as int) =~= part@);
            assert(views.take(i + 1 as int) =~= views.take(i as int).push(part@));
            lemma_concat_all_snoc(views.take(i as int), part@);
        }
        i = i + 1;
    }
    proof {
        assert(views.take(parts@.len() as int) =~= views);
    }
    out
}

/// The escape counts of one band: the rows `b.0 .. b.0 + b.1` of the
/// full, row-major count buffer of an image `width` pixels wide.
pub open spec fn band_counts(counts: Seq<Option<u32>>, width: nat, b: (usize, usize)) -> Seq<
    Option<u32>,
> {
    counts.subrange(b.0 as int * width as int, (b.0 + b.1) as int * width as int)
}

/// The shaded bytes of each band, in band order.
pub open spec fn band_images(counts: Seq<Option<u32>>, width: nat, bands: Seq<(usize, usize)>) -> Seq<
    Seq<u8>,
> {
    bands.map_values(|b: (usize, usize)| shades(band_counts(counts, width, b)))
}

/// Bands that cover the rows `from .. to` render, concatenated, exactly
/// the shading of those rows.
#[verifier::rlimit(100)]
proof fn lemma_bands_shade_range(
    counts: Seq<Option<u32>>,
    width: nat,
    bands: Seq<(usize, usize)>,
    from: int,
    to: int,
)
    requires
        covers_rows(bands, from, to),
        0 <= from,
        to * width <= counts.len(),
    ensures
        concat_all(band_images(counts, width, bands)) == shades(
            counts.subrange(from * width, to * width),
        ),
    decreases bands.len(),
{
    assert(from * width <= to * width) by (nonlinear_arith)
        requires 0 <= from <= to, width >= 0;
    if bands.len() == 0 {
        assert(band_images(counts, width, bands) =~= Seq::<Seq<u8>>::empty());
        assert(shades(counts.subrange(from * width, to * width)) =~= Seq::<u8>::empty());
    } else {
        let k = bands.len() - 1;
        let bk = bands[k];
        let mid = bk.0 as int;
        let front = bands.drop_last();
        if k > 0 {
            crate::tiling::lemma_tiles_ordered(bands, from, to, 0, k);
        }
        assert(covers_rows(front, from, mid)) by {
            assert(forall|i: int| 0 <= i < front.len() ==> front[i] == bands[i]);
            if front.len() > 0 {
                assert(bands[k - 1].0 + bands[k - 1].1 == bands[k].0);
            }
        }
        assert(mid + bk.1 == to);
        assert(from * width <= mid * width && mid * width <= to * width) by (nonlinear_arith)
            requires 0 <= from <= mid <= to, width >= 0;
        lemma_bands_shade_range(counts, width, front, from, mid);
        assert(band_images(counts, width, bands).drop_last() =~= band_images(
            counts,
            width,
            front,
        ));
        assert(band_images(counts, width, bands).last() == shades(band_counts(counts, width, bk)));
        assert((bk.0 + bk.1) as int * width as int == to * width);
        assert(shades(counts.subrange(from * width, to * width)) =~= shades(
            counts.subrange(from * width, mid * width),
        ) + shades(counts.subrange(mid * width, to * width)));
    }
}

/// Render the whole image band by band, as the parallel dispatcher
/// does with one worker per band: partition the rows, shade each
/// band's escape counts, and join the results. The output is exactly
/// the shading of the whole count buffer, whatever the worker count.
pub fn render_in_bands(counts: &Vec<Option<u32>>, width: usize, height: usize, workers: usize) -> (out:
    Vec<u8>)
    requires
        workers > 0,
        counts@.len() == height * width,
        counts_in_limit(counts@),
    ensures
        out@ == shades(counts@),
{
    let bands = crate::tiling::band_partition(height, workers);
    let total: usize = counts.len();
    let ghost images = band_images(counts@, width as nat, bands@);
    let mut parts: Vec<Vec<u8>> = Vec::new();
    let mut i: usize = 0;
    while i < bands.len()
        invariant
            total == counts@.len(),
            counts@.len() == height * width,
            counts_in_limit(counts@),
            tiles(bands@, height as int),
            images == band_images(counts@, width as nat, bands@),
            0 <= i <= bands@.len(),
            parts@.map_values(|p: Vec<u8>| p@) =~= images.take(i as int),
        decreases bands@.len() - i,
    {
        let (top, h) = bands[i];
        proof {
            crate::tiling::lemma_tiles_ordered_end(bands@, 0, height as int, i as int);
            assert((top + h) as int * width as int <= height as int * width as int)
                by (nonlinear_arith)
                requires 0 <= top + h <= height, width >= 0;
            assert(top as int * width as int <= (top + h) as int * width as int)
                by (nonlinear_arith)
                requires 0 <= top <= top + h, width >= 0;
        }
        let start = top * width;
        let end = (top + h) * width;
        let mut segment: Vec<Option<u32>> = Vec::new();
        let mut j: usize = start;
        while j < end
            invariant
                counts@.len() == height * width,
                counts_in_limit(counts@),
                0 <= start <= j <= end <= counts@.len(),
                segment@ =~= counts@.subrange(start as int, j as int),
            decreases end - j,
        {
            segment.push(counts[j]);
            proof {
                assert(segment@ =~= counts@.subrange(start as int, j + 1 as int));
            }
            j = j + 1;
        }
        proof {
            assert(segment@ =~= band_counts(counts@, width as nat, bands@[i as int]));
        }
        let rendered = render_counts(&segment);
        let ghost parts_before = parts@.map_values(|p: Vec<u8>| p@);
        parts.push(rendered);
        proof {
            assert(parts@.map_values(|p: Vec<u8>| p@) =~= parts_before.push(rendered@));
            assert(images.take(i + 1 as int) =~= images.take(i as int).push(images[i as int]));
        }
        i = i + 1;
    }
    proof {
        assert(images.take(bands@.len() as int) =~= images);
        lemma_band_render_equiv(counts@, width as nat, height as nat, bands@);
    }
    let out = assemble(&parts);
    proof {
        assert(parts@.map_values(|p: Vec<u8>| p@) =~= images);
    }
    out
}

/// Render equivalence: for any tiling of the image rows into bands,
/// shading the bands one by one and concatenating the results yields
/// byte for byte the shading of the whole count buffer, so splitting
/// the image across workers cannot change the rendered image.
pub proof fn lemma_band_render_equiv(
    counts: Seq<Option<u32>>,
    width: nat,
    height: nat,
    bands: Seq<(usize, usize)>,
)
    requires
        tiles(bands, height as int),
        counts.len() == height * width,
    ensures
        concat_all(band_images(counts, width, bands)) == shades(counts),
{
    lemma_bands_shade_range(counts, width, bands, 0, height as int);
    assert(counts.subrange(0, height as int * width as int) =~= counts);
}

} // verus!
