//! Painting escape results into a pixel buffer, one band of rows at a time.
//!
//! The numeric kernel that decides when a point escapes is handed in by the
//! caller as a function of the band and of the pixel's place in it. Here are
//! the grey level of each result and the byte offsets it is written to.

use crate::band::{
    bands_of, lemma_band_of_row, lemma_bands_tile, lemma_one_worker_one_band, partition, tiles, Band,
};
use vstd::prelude::*;

verus! {

/// The grey level that stands for an escape result: black for a point that
/// stays bounded, white for one that escapes at once, darker the later it
/// escapes. Only the low eight bits of the step count.
pub open spec fn intensity_of(escape: Option<u32>) -> u8 {
    match escape {
        None => 0u8,
        Some(step) => (255 - step % 256) as u8,
    }
}

/// Every channel byte of pixel number `p` holds `level`.
pub open spec fn painted(pixels: Seq<u8>, channels: int, p: int, level: u8) -> bool {
    forall|k: int| 0 <= k < channels ==> #[trigger] pixels[p * channels + k] == level
}

/// The pixel at column `col` and row `row` of `band` holds the grey level of
/// a result that `escape` gives for it. `pixels` starts `lead` rows above
/// the band.
#[verifier::opaque]
pub open spec fn shows<F: Fn(Band, usize, usize) -> Option<u32>>(
    pixels: Seq<u8>,
    lead: int,
    width: int,
    channels: int,
    escape: F,
    band: Band,
    col: usize,
    row: usize,
) -> bool {
    exists|e: Option<u32>|
        #[trigger] call_ensures(escape, (band, col, row), e) && painted(
            pixels,
            channels,
            (lead + row) * width + col,
            intensity_of(e),
        )
}

/// `pixels` is the image of one band: `band.rows` rows of `width` pixels of
/// `channels` bytes, each pixel showing what `escape` gives for it.
pub open spec fn rendered_band<F: Fn(Band, usize, usize) -> Option<u32>>(
    pixels: Seq<u8>,
    band: Band,
    width: int,
    channels: int,
    escape: F,
) -> bool {
    &&& pixels.len() == width * band.rows * channels
    &&& forall|col: usize, row: usize|
        col < width && row < band.rows ==> #[trigger] shows(
            pixels,
            0,
            width,
            channels,
            escape,
            band,
            col,
            row,
        )
}

/// `pixels` is the whole image, and each pixel shows what `escape` gives for
/// it in the band that holds its row when the rows are shared out among
/// `workers` workers.
pub open spec fn rendered_in_bands<F: Fn(Band, usize, usize) -> Option<u32>>(
    pixels: Seq<u8>,
    width: int,
    height: nat,
    channels: int,
    workers: nat,
    escape: F,
) -> bool {
    &&& pixels.len() == width * height * channels
    &&& forall|i: int, col: usize, row: usize|
        0 <= i < bands_of(height, workers).len() && col < width && row < bands_of(
            height,
            workers,
        )[i].rows ==> #[trigger] shows(
            pixels,
            bands_of(height, workers)[i].top as int,
            width,
            channels,
            escape,
            bands_of(height, workers)[i],
            col,
            row,
        )
}

/// `escape` may be called on every pixel of `band`.
pub open spec fn covers<F: Fn(Band, usize, usize) -> Option<u32>>(
    escape: F,
    band: Band,
    width: int,
) -> bool {
    forall|col: usize, row: usize|
        col < width && row < band.rows ==> #[trigger] call_requires(escape, (band, col, row))
}

/// The grey level of an escape result.
pub fn intensity(escape: Option<u32>) -> (level: u8)
    ensures
        level == intensity_of(escape),
{
    match escape {
        None => 0,
        Some(step) => {
            let low: u32 = step % 256;
            255 - low as u8
        },
    }
}

/// Pixel number `row * width + col` lies inside `rows` rows of `width`
/// pixels, and after every pixel of the rows above.
proof fn lemma_pixel_index(width: int, rows: int, col: int, row: int)
    requires
        0 <= col < width,
        0 <= row < rows,
    ensures
        0 <= row * width,
        row * width + width <= rows * width,
        (row + 1) * width == row * width + width,
        rows * width == width * rows,
{
    assert(0 <= row * width && (row + 1) * width <= rows * width) by (nonlinear_arith)
        requires
            0 <= row,
            row + 1 <= rows,
            width > 0,
    ;
    assert((row + 1) * width == row * width + width) by (nonlinear_arith);
    assert(rows * width == width * rows) by (nonlinear_arith);
}

/// The bytes of pixel `p` of `count` lie inside `count * channels` bytes,
/// and after those of every pixel before it.
proof fn lemma_pixel_bytes(count: int, channels: int, p: int)
    requires
        0 <= p < count,
        0 <= channels,
    ensures
        0 <= p * channels,
        p * channels + channels <= count * channels,
        (p + 1) * channels == p * channels + channels,
{
    assert(0 <= p * channels && (p + 1) * channels <= count * channels) by (nonlinear_arith)
        requires
            0 <= p,
            p + 1 <= count,
            channels >= 0,
    ;
    assert((p + 1) * channels == p * channels + channels) by (nonlinear_arith);
}

/// A pixel still shows its result in a buffer that agrees with the first on
/// that pixel's bytes, also where the second buffer starts `shift` rows
/// further up.
proof fn lemma_shows_carries_over<F: Fn(Band, usize, usize) -> Option<u32>>(
    a: Seq<u8>,
    b: Seq<u8>,
    lead: int,
    shift: int,
    width: int,
    channels: int,
    escape: F,
    band: Band,
    col: usize,
    row: usize,
)
    requires
        shows(a, lead, width, channels, escape, band, col, row),
        forall|k: int|
            0 <= k < channels ==> #[trigger] b[((lead + shift + row) * width + col) * channels + k]
                == a[((lead + row) * width + col) * channels + k],
    ensures
        shows(b, lead + shift, width, channels, escape, band, col, row),
{
    reveal(shows);
    let e = choose|e: Option<u32>|
        #[trigger] call_ensures(escape, (band, col, row), e) && painted(
            a,
            channels,
            (lead + row) * width + col,
            intensity_of(e),
        );
    assert forall|k: int| 0 <= k < channels implies #[trigger] b[((lead + shift + row) * width
        + col) * channels + k] == intensity_of(e) by {
        assert(a[((lead + row) * width + col) * channels + k] == intensity_of(e));
    }
    assert(painted(b, channels, (lead + shift + row) * width + col, intensity_of(e)));
}

/// Renders one band into its own stretch of the buffer: for every pixel of
/// the band, asks `escape` for the pixel's result and writes its grey level
/// to each of the pixel's channel bytes.
pub fn render<F: Fn(Band, usize, usize) -> Option<u32>>(
    pixels: &mut [u8],
    band: Band,
    width: usize,
    channels: usize,
    escape: &F,
)
    requires
        channels >= 1,
        old(pixels)@.len() == width * band.rows * channels,
        covers(*escape, band, width as int),
    ensures
        rendered_band(final(pixels)@, band, width as int, channels as int, *escape),
{
    let len: usize = pixels.len();
    let rows: usize = band.rows;
    proof {
        assert(width * rows <= width * rows * channels) by (nonlinear_arith)
            requires
                channels >= 1,
                width * rows >= 0,
        ;
        assert(width * rows >= 0) by (nonlinear_arith)
            requires
                width >= 0,
                rows >= 0,
        ;
    }
    let mut row: usize = 0;
    while row < rows
        invariant
            channels >= 1,
            rows == band.rows,
            row <= rows,
            len == pixels@.len(),
            len == width * rows * channels,
            width * rows <= len,
            covers(*escape, band, width as int),
            forall|c: usize, r: usize|
                c < width && r < row ==> #[trigger] shows(
                    pixels@,
                    0,
                    width as int,
                    channels as int,
                    *escape,
                    band,
                    c,
                    r,
                ),
        decreases rows - row,
    {
        let mut col: usize = 0;
        while col < width
            invariant
                channels >= 1,
                rows == band.rows,
                row < rows,
                col <= width,
                len == pixels@.len(),
                len == width * rows * channels,
                width * rows <= len,
                covers(*escape, band, width as int),
                forall|c: usize, r: usize|
                    c < width && (r < row || (r == row && c < col)) ==> #[trigger] shows(
                        pixels@,
                        0,
                        width as int,
                        channels as int,
                        *escape,
                        band,
                        c,
                        r,
                    ),
            decreases width - col,
        {
            proof {
                lemma_pixel_index(width as int, rows as int, col as int, row as int);
                lemma_pixel_bytes(width * rows, channels as int, row * width + col);
            }
            let result: Option<u32> = escape(band, col, row);
            let level: u8 = intensity(result);
            let first: usize = (row * width + col) * channels;
            let ghost before = pixels@;
            let mut k: usize = 0;
            while k < channels
                invariant
                    k <= channels,
                    len == pixels@.len(),
                    len == before.len(),
                    first == (row * width + col) * channels,
                    first + channels <= len,
                    forall|x: int| 0 <= x < first ==> pixels@[x] == before[x],
                    forall|x: int| first <= x < first + k ==> pixels@[x] == level,
                decreases channels - k,
            {
                pixels[first + k] = level;
                k += 1;
            }
            proof {
                assert(painted(
                    pixels@,
                    channels as int,
                    (0 + row) * width + col,
                    intensity_of(result),
                ));
                assert(shows(
                    pixels@,
                    0,
                    width as int,
                    channels as int,
                    *escape,
                    band,
                    col,
                    row,
                )) by {
                    reveal(shows);
                }
                assert forall|c: usize, r: usize|
                    c < width && (r < row || (r == row && c < col)) implies #[trigger] shows(
                    pixels@,
                    0,
                    width as int,
                    channels as int,
                    *escape,
                    band,
                    c,
                    r,
                ) by {
                    lemma_pixel_index(width as int, rows as int, c as int, r as int);
                    if r < row {
                        lemma_pixel_index(width as int, row as int, c as int, r as int);
                    }
                    lemma_pixel_bytes(row * width + col, channels as int, r * width + c);
                    lemma_shows_carries_over(
                        before,
                        pixels@,
                        0,
                        0,
                        width as int,
                        channels as int,
                        *escape,
                        band,
                        c,
                        r,
                    );
                }
            }
            col += 1;
        }
        row += 1;
    }
}

/// Channel byte `k` of the pixel at `col` in row `lead + row` lies inside
/// `lead + rows` rows, `lead` whole rows after channel byte `k` of the pixel
/// at `col` in row `row`.
proof fn lemma_byte_index(
    width: int,
    channels: int,
    lead: int,
    rows: int,
    col: int,
    row: int,
    k: int,
)
    requires
        0 <= col < width,
        0 <= row < rows,
        0 <= k < channels,
        0 <= lead,
    ensures
        0 <= (row * width + col) * channels + k < width * rows * channels,
        ((lead + row) * width + col) * channels + k == lead * width * channels + ((row * width
            + col) * channels + k),
        ((lead + row) * width + col) * channels + k < (lead + rows) * width * channels,
        (lead + rows) * width * channels == lead * width * channels + width * rows * channels,
        0 <= lead * width * channels,
{
    lemma_pixel_index(width, rows, col, row);
    lemma_pixel_bytes(width * rows, channels, row * width + col);
    assert(((lead + row) * width + col) * channels == lead * width * channels + (row * width
        + col) * channels) by (nonlinear_arith);
    assert((lead + rows) * width * channels == lead * width * channels + width * rows * channels)
        by (nonlinear_arith);
    assert(0 <= lead * width * channels) by (nonlinear_arith)
        requires
            0 <= lead,
            0 <= width,
            0 <= channels,
    ;
}

/// The image of a band, put behind the rows above it, shows the band's
/// pixels at their rows of the whole image.
proof fn lemma_band_joins<F: Fn(Band, usize, usize) -> Option<u32>>(
    done: Seq<u8>,
    head: Seq<u8>,
    band: Band,
    width: int,
    channels: int,
    escape: F,
)
    requires
        channels >= 1,
        width >= 0,
        done.len() == band.top * width * channels,
        rendered_band(head, band, width, channels, escape),
    ensures
        forall|col: usize, row: usize|
            col < width && row < band.rows ==> #[trigger] shows(
                done + head,
                band.top as int,
                width,
                channels,
                escape,
                band,
                col,
                row,
            ),
{
    let grown = done + head;
    let top = band.top as int;
    assert forall|col: usize, row: usize| col < width && row < band.rows implies #[trigger] shows(
        grown,
        top,
        width,
        channels,
        escape,
        band,
        col,
        row,
    ) by {
        assert(shows(head, 0, width, channels, escape, band, col, row));
        assert forall|k: int| 0 <= k < channels implies #[trigger] grown[((0 + top + row) * width
            + col) * channels + k] == head[((0 + row) * width + col) * channels + k] by {
            lemma_byte_index(width, channels, top, band.rows as int, col as int, row as int, k);
        }
        lemma_shows_carries_over(head, grown, 0, top, width, channels, escape, band, col, row);
    }
}

/// What the rows above show is not changed by putting further rows behind
/// them.
proof fn lemma_earlier_bands_stay<F: Fn(Band, usize, usize) -> Option<u32>>(
    done: Seq<u8>,
    head: Seq<u8>,
    bands: Seq<Band>,
    i: int,
    top: int,
    width: int,
    channels: int,
    escape: F,
)
    requires
        channels >= 1,
        width >= 0,
        0 <= i <= bands.len(),
        done.len() == top * width * channels,
        forall|b: int| 0 <= b < i ==> (#[trigger] bands[b]).top + bands[b].rows <= top,
        forall|b: int, col: usize, row: usize|
            0 <= b < i && col < width && row < bands[b].rows ==> #[trigger] shows(
                done,
                bands[b].top as int,
                width,
                channels,
                escape,
                bands[b],
                col,
                row,
            ),
    ensures
        forall|b: int, col: usize, row: usize|
            0 <= b < i && col < width && row < bands[b].rows ==> #[trigger] shows(
                done + head,
                bands[b].top as int,
                width,
                channels,
                escape,
                bands[b],
                col,
                row,
            ),
{
    let grown = done + head;
    assert forall|b: int, col: usize, row: usize|
        0 <= b < i && col < width && row < bands[b].rows implies #[trigger] shows(
        grown,
        bands[b].top as int,
        width,
        channels,
        escape,
        bands[b],
        col,
        row,
    ) by {
        let lead = bands[b].top as int;
        let rows = bands[b].rows as int;
        assert(lead + rows <= top);
        assert forall|k: int| 0 <= k < channels implies #[trigger] grown[((lead + 0 + row) * width
            + col) * channels + k] == done[((lead + row) * width + col) * channels + k] by {
            lemma_byte_index(width, channels, lead, rows, col as int, row as int, k);
            assert((lead + rows) * width * channels <= top * width * channels) by (nonlinear_arith)
                requires
                    lead + rows <= top,
                    0 <= width,
                    0 <= channels,
            ;
        }
        lemma_shows_carries_over(done, grown, lead, 0, width, channels, escape, bands[b], col, row);
    }
}

/// The bytes of `rows` further rows fit into the buffer where the rows so
/// far and the further ones are no more than the image has.
proof fn lemma_stretch_fits(top: int, rows: int, width: int, height: int, channels: int)
    requires
        0 <= top,
        0 <= rows,
        top + rows <= height,
        0 <= width,
        1 <= channels,
    ensures
        (top + rows) * width * channels == top * width * channels + width * rows * channels,
        (top + rows) * width * channels <= height * width * channels,
        0 <= width * rows <= width * rows * channels,
        top + rows == height ==> (top + rows) * width * channels == height * width * channels,
{
    assert((top + rows) * width * channels == top * width * channels + width * rows * channels)
        by (nonlinear_arith);
    assert((top + rows) * width * channels <= height * width * channels) by (nonlinear_arith)
        requires
            top + rows <= height,
            0 <= width,
            0 <= channels,
    ;
    assert(0 <= width * rows <= width * rows * channels) by (nonlinear_arith)
        requires
            0 <= width,
            0 <= rows,
            1 <= channels,
    ;
}

/// `bands` are the bands of an image of `height` rows for `workers` workers.
#[verifier::opaque]
spec fn planned(bands: Seq<Band>, height: nat, workers: nat) -> bool {
    bands == bands_of(height, workers)
}

/// Renders the whole image band by band, as many bands as `workers` asks
/// for, one after the other: the buffer is cut into the bands' stretches,
/// and each band is rendered into its own.
pub fn render_bands<F: Fn(Band, usize, usize) -> Option<u32>>(
    pixels: &mut [u8],
    bounds: (usize, usize),
    channels: usize,
    workers: usize,
    escape: &F,
)
    requires
        channels >= 1,
        workers >= 1,
        old(pixels)@.len() == bounds.0 * bounds.1 * channels,
        forall|i: int|
            0 <= i < bands_of(bounds.1 as nat, workers as nat).len() ==> covers(
                *escape,
                #[trigger] bands_of(bounds.1 as nat, workers as nat)[i],
                bounds.0 as int,
            ),
    ensures
        rendered_in_bands(
            final(pixels)@,
            bounds.0 as int,
            bounds.1 as nat,
            channels as int,
            workers as nat,
            *escape,
        ),
{
    let width: usize = bounds.0;
    let height: usize = bounds.1;
    let bands: Vec<Band> = partition(height, workers);
    let total: usize = pixels.len();
    let ghost end: Seq<u8> = final(pixels)@;
    let ghost mut done: Seq<u8> = Seq::empty();
    let ghost mut top: int = 0;
    let mut rest: &mut [u8] = pixels;
    let mut i: usize = 0;
    proof {
        assert(0 * width * channels == 0) by (nonlinear_arith);
        assert(width * height * channels == height * width * channels) by (nonlinear_arith);
        assert(planned(bands@, height as nat, workers as nat)) by {
            reveal(planned);
        }
        lemma_bands_tile(height as nat, workers as nat);
        assert(end =~= done + final(rest)@);
    }
    while i < bands.len()
        invariant
            channels >= 1,
            i <= bands@.len(),
            planned(bands@, height as nat, workers as nat),
            tiles(bands@, height as int),
            total == height * width * channels,
            end == done + final(rest)@,
            0 <= top <= height,
            i < bands@.len() ==> top == bands@[i as int].top,
            i == bands@.len() ==> top == height,
            done.len() == top * width * channels,
            done.len() + rest@.len() == total,
            forall|b: int|
                0 <= b < bands@.len() ==> covers(*escape, #[trigger] bands@[b], width as int),
            forall|b: int| 0 <= b < i ==> (#[trigger] bands@[b]).top + bands@[b].rows <= top,
            forall|b: int|
                0 <= b < bands@.len() ==> (#[trigger] bands@[b]).top + bands@[b].rows <= height,
            forall|b: int, col: usize, row: usize|
                0 <= b < i && col < width && row < bands@[b].rows ==> #[trigger] shows(
                    done,
                    bands@[b].top as int,
                    width as int,
                    channels as int,
                    *escape,
                    bands@[b],
                    col,
                    row,
                ),
        decreases bands@.len() - i,
    {
        let band: Band = bands[i];
        let ghost next_top: int = if i + 1 < bands@.len() {
            bands@[i + 1].top as int
        } else {
            height as int
        };
        proof {
            assert(top + band.rows == next_top) by {
                if i + 1 < bands@.len() {
                    assert(bands@[i as int].top + bands@[i as int].rows == bands@[i + 1].top);
                } else {
                    assert(bands@.last() == bands@[i as int]);
                }
            }
            lemma_stretch_fits(top, band.rows as int, width as int, height as int, channels as int);
        }
        let stretch: usize = width * band.rows * channels;
        let (head, tail) = rest.split_at_mut(stretch);
        render(head, band, width, channels, escape);
        proof {
            let grown = done + head@;
            lemma_earlier_bands_stay(
                done,
                head@,
                bands@,
                i as int,
                top,
                width as int,
                channels as int,
                *escape,
            );
            lemma_band_joins(done, head@, band, width as int, channels as int, *escape);
            assert(end == grown + final(tail)@) by {
                assert(done + (head@ + final(tail)@) =~= grown + final(tail)@);
            }
            done = grown;
            top = next_top;
        }
        rest = tail;
        i += 1;
    }
    proof {
        reveal(planned);
        assert(final(rest)@ =~= Seq::<u8>::empty());
        assert(end =~= done);
    }
}

/// `escape` is a function of the pixel's place in the whole image: it
/// gives a pixel one result only, and the same in whichever band the pixel
/// is handed to it.
pub open spec fn band_blind<F: Fn(Band, usize, usize) -> Option<u32>>(escape: F) -> bool {
    forall|b1: Band, b2: Band, col: usize, r1: usize, r2: usize, e1: Option<u32>, e2: Option<u32>|
        b1.top + r1 == b2.top + r2 && #[trigger] call_ensures(escape, (b1, col, r1), e1)
            && #[trigger] call_ensures(escape, (b2, col, r2), e2) ==> e1 == e2
}

/// What one byte holds: the byte at `x` of an image rendered in bands is the
/// grey level of a result that `escape` gave for the byte's pixel, in the
/// band that holds the pixel's row. The result names that band, the row in
/// it, and the escape result.
pub proof fn lemma_byte_of_rendering<F: Fn(Band, usize, usize) -> Option<u32>>(
    escape: F,
    pixels: Seq<u8>,
    width: nat,
    height: nat,
    channels: nat,
    workers: nat,
    x: int,
) -> (found: (Band, usize, Option<u32>))
    requires
        workers >= 1,
        channels >= 1,
        width <= usize::MAX,
        height <= usize::MAX,
        rendered_in_bands(pixels, width as int, height, channels as int, workers, escape),
        0 <= x < pixels.len(),
    ensures
        width > 0,
        found.0.top + found.1 == (x / (channels as int)) / (width as int),
        call_ensures(
            escape,
            (found.0, ((x / (channels as int)) % (width as int)) as usize, found.1),
            found.2,
        ),
        pixels[x] == intensity_of(found.2),
{
    let c = channels as int;
    let w = width as int;
    let h = height as int;
    assert(w > 0 && h > 0) by (nonlinear_arith)
        requires
            0 < w * h * c,
            w >= 0,
            h >= 0,
            c >= 0,
    ;
    let p = x / c;
    let k = x % c;
    vstd::arithmetic::div_mod::lemma_fundamental_div_mod(x, c);
    vstd::arithmetic::div_mod::lemma_mod_bound(x, c);
    assert(0 <= p < w * h && c * p == p * c) by (nonlinear_arith)
        requires
            x == c * p + k,
            0 <= k < c,
            0 <= x < w * h * c,
    ;
    let row = p / w;
    let col = p % w;
    vstd::arithmetic::div_mod::lemma_fundamental_div_mod(p, w);
    vstd::arithmetic::div_mod::lemma_mod_bound(p, w);
    assert(0 <= row < h && w * row == row * w) by (nonlinear_arith)
        requires
            p == w * row + col,
            0 <= col < w,
            0 <= p < w * h,
    ;
    let i = lemma_band_of_row(height, workers, row);
    let band = bands_of(height, workers)[i];
    let r = (row - band.top) as usize;
    assert(shows(pixels, band.top as int, w, c, escape, band, col as usize, r));
    reveal(shows);
    let e = choose|e: Option<u32>|
        #[trigger] call_ensures(escape, (band, col as usize, r), e) && painted(
            pixels,
            c,
            (band.top + r) * w + col,
            intensity_of(e),
        );
    assert(pixels[((band.top + r) * w + col) * c + k] == intensity_of(e));
    (band, r, e)
}

/// The number of workers does not show in the image: where `escape` is a
/// function of the pixel's place in the whole image, rendering in the bands
/// of one worker count and in those of another give the same bytes.
pub proof fn lemma_worker_count_does_not_show<F: Fn(Band, usize, usize) -> Option<u32>>(
    escape: F,
    one: Seq<u8>,
    other: Seq<u8>,
    width: nat,
    height: nat,
    channels: nat,
    workers: nat,
    other_workers: nat,
)
    requires
        workers >= 1,
        other_workers >= 1,
        channels >= 1,
        width <= usize::MAX,
        height <= usize::MAX,
        band_blind(escape),
        rendered_in_bands(one, width as int, height, channels as int, workers, escape),
        rendered_in_bands(other, width as int, height, channels as int, other_workers, escape),
    ensures
        one == other,
{
    assert forall|x: int| 0 <= x < one.len() implies one[x] == other[x] by {
        let f = lemma_byte_of_rendering(escape, one, width, height, channels, workers, x);
        let g = lemma_byte_of_rendering(escape, other, width, height, channels, other_workers, x);
        assert(f.2 == g.2);
    }
    assert(one =~= other);
}

/// Rendering for one worker is rendering the whole image as one band.
pub proof fn lemma_one_worker_is_whole_image<F: Fn(Band, usize, usize) -> Option<u32>>(
    escape: F,
    pixels: Seq<u8>,
    width: nat,
    height: nat,
    channels: nat,
)
    requires
        0 < height <= usize::MAX,
    ensures
        rendered_in_bands(pixels, width as int, height, channels as int, 1, escape)
            <==> rendered_band(
            pixels,
            Band { top: 0, rows: height as usize },
            width as int,
            channels as int,
            escape,
        ),
{
    lemma_one_worker_one_band(height);
    let whole = Band { top: 0, rows: height as usize };
    assert(bands_of(height, 1)[0] == whole);
    if rendered_band(pixels, whole, width as int, channels as int, escape) {
        assert forall|i: int, col: usize, row: usize|
            0 <= i < bands_of(height, 1).len() && col < width && row < bands_of(
                height,
                1,
            )[i].rows implies #[trigger] shows(
            pixels,
            bands_of(height, 1)[i].top as int,
            width as int,
            channels as int,
            escape,
            bands_of(height, 1)[i],
            col,
            row,
        ) by {
            assert(shows(pixels, 0, width as int, channels as int, escape, whole, col, row));
        }
    }
    if rendered_in_bands(pixels, width as int, height, channels as int, 1, escape) {
        assert forall|col: usize, row: usize| col < width && row < whole.rows implies #[trigger] shows(
            pixels,
            0,
            width as int,
            channels as int,
            escape,
            whole,
            col,
            row,
        ) by {
            assert(shows(
                pixels,
                bands_of(height, 1)[0].top as int,
                width as int,
                channels as int,
                escape,
                bands_of(height, 1)[0],
                col,
                row,
            ));
        }
    }
    assert(width * height * channels == width * whole.rows * channels);
}

} // verus!
