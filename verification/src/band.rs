//! Row bands: the rows of an image cut into consecutive stretches of equal
//! height, one stretch for each worker, the last one possibly shorter.

use vstd::prelude::*;

verus! {

/// A stretch of consecutive image rows: `rows` of them, the first being row
/// `top` of the image.
#[derive(Clone, Copy, Debug, PartialEq, Eq, Structural)]
pub struct Band {
    pub top: usize,
    pub rows: usize,
}

impl Band {
    /// The pixel corners of the band in the whole image, each as column and
    /// row: its upper left pixel, and the pixel right of and below its lower
    /// right one.
    pub fn corners(&self, width: usize) -> (ends: ((usize, usize), (usize, usize)))
        requires
            self.top + self.rows <= usize::MAX,
        ensures
            ends == ((0usize, self.top), (width, (self.top + self.rows) as usize)),
    {
        ((0, self.top), (width, self.top + self.rows))
    }
}

/// The quotient `a / b` rounded up.
pub open spec fn ceil_div(a: nat, b: nat) -> nat
    recommends
        b > 0,
{
    (a + b - 1) as nat / b
}

/// The height of every band but the last: the rows shared out evenly among
/// the workers, rounded up.
pub open spec fn band_rows(height: nat, workers: nat) -> nat {
    ceil_div(height, workers)
}

/// How many bands there are: as many as it takes to cover the rows, none of
/// them empty.
pub open spec fn band_count(height: nat, workers: nat) -> nat {
    if band_rows(height, workers) == 0 {
        0
    } else {
        ceil_div(height, band_rows(height, workers))
    }
}

/// The band number `i`, counted from the top.
pub open spec fn band_at(height: nat, workers: nat, i: int) -> Band {
    let per = band_rows(height, workers);
    Band {
        top: (i * per) as usize,
        rows: (if height - i * per < per {
            height - i * per
        } else {
            per as int
        }) as usize,
    }
}

/// The bands of an image of `height` rows for `workers` workers, top to
/// bottom.
pub open spec fn bands_of(height: nat, workers: nat) -> Seq<Band> {
    Seq::new(band_count(height, workers), |i: int| band_at(height, workers, i))
}

/// The bands cover the rows `0..height` in order, each row once, and none of
/// them is empty.
pub open spec fn tiles(bands: Seq<Band>, height: int) -> bool {
    &&& forall|i: int| 0 <= i < bands.len() ==> (#[trigger] bands[i]).rows > 0
    &&& forall|i: int|
        0 <= i < bands.len() - 1 ==> (#[trigger] bands[i]).top + bands[i].rows == bands[i + 1].top
    &&& if bands.len() == 0 {
        height == 0
    } else {
        bands[0].top == 0 && bands.last().top + bands.last().rows == height
    }
}

/// `ceil_div(a, b)` is the least `q` with `q * b >= a`.
pub proof fn lemma_ceil_div_is_least(a: nat, b: nat)
    requires
        b > 0,
    ensures
        ceil_div(a, b) * b >= a,
        a > 0 ==> ceil_div(a, b) >= 1 && (ceil_div(a, b) - 1) * b < a,
        a == 0 ==> ceil_div(a, b) == 0,
{
    let q = ceil_div(a, b) as int;
    let n = a + b - 1;
    assert(n == b * (n / (b as int)) + n % (b as int)) by {
        vstd::arithmetic::div_mod::lemma_fundamental_div_mod(n, b as int);
    }
    assert(0 <= n % (b as int) < b) by {
        vstd::arithmetic::div_mod::lemma_mod_bound(n, b as int);
    }
    assert(q * b == b * q) by (nonlinear_arith);
    assert((q - 1) * b == q * b - b) by (nonlinear_arith);
    if a == 0 {
        assert(q == 0) by (nonlinear_arith)
            requires
                q * b <= b - 1,
                q >= 0,
                b > 0,
        ;
    } else {
        assert(q >= 1) by (nonlinear_arith)
            requires
                q * b > 0,
                b > 0,
        ;
    }
}

/// A count of bands that reaches the height, while one band fewer does not,
/// is the count of bands.
proof fn lemma_ceil_div_unique(a: nat, b: nat, q: int)
    requires
        b > 0,
        q * b >= a,
        a > 0 ==> q >= 1 && (q - 1) * b < a,
        a == 0 ==> q == 0,
    ensures
        q == ceil_div(a, b),
{
    lemma_ceil_div_is_least(a, b);
    let c = ceil_div(a, b) as int;
    if a > 0 {
        assert(q == c) by (nonlinear_arith)
            requires
                b > 0,
                q * b >= a,
                (q - 1) * b < a,
                c * b >= a,
                (c - 1) * b < a,
        ;
    }
}

/// Where band number `i` of `count` bands of `per` rows lies in the height.
proof fn lemma_band_fits(height: nat, per: nat, count: nat, i: int)
    requires
        per > 0,
        height > 0,
        count * per >= height,
        (count - 1) * per < height,
        0 <= i < count,
    ensures
        0 <= i * per < height,
        (i + 1) * per == i * per + per,
        i == 0 ==> i * per == 0,
        i < count - 1 ==> (i + 1) * per < height,
        i == count - 1 ==> (i + 1) * per >= height,
{
    assert(0 <= i * per && i * per <= (count - 1) * per) by (nonlinear_arith)
        requires
            0 <= i <= count - 1,
            per > 0,
    ;
    assert((i + 1) * per == i * per + per) by (nonlinear_arith);
    if i < count - 1 {
        assert((i + 1) * per <= (count - 1) * per) by (nonlinear_arith)
            requires
                0 <= i + 1 <= count - 1,
                per > 0,
        ;
    }
}

/// The partition law: for at least one worker the bands are no more than
/// the workers, and they cover the rows `0..height` top to bottom with no
/// gap, no overlap and no empty band.
pub proof fn lemma_bands_tile(height: nat, workers: nat)
    requires
        workers >= 1,
        height <= usize::MAX,
    ensures
        bands_of(height, workers).len() <= workers,
        tiles(bands_of(height, workers), height as int),
        forall|i: int|
            0 <= i < bands_of(height, workers).len() ==> (#[trigger] bands_of(
                height,
                workers,
            )[i]).top == i * band_rows(height, workers),
        forall|i: int|
            0 <= i < bands_of(height, workers).len() ==> (#[trigger] bands_of(
                height,
                workers,
            )[i]).top + bands_of(height, workers)[i].rows <= height,
{
    let per = band_rows(height, workers);
    let count = band_count(height, workers);
    let bands = bands_of(height, workers);
    lemma_ceil_div_is_least(height, workers);
    if per == 0 {
        assert(height == 0);
    } else {
        lemma_ceil_div_is_least(height, per);
        if height > 0 {
            // `workers` bands of `per` rows reach the height, so the least
            // count that does is no more.
            assert(count <= workers) by (nonlinear_arith)
                requires
                    per > 0,
                    per * workers >= height,
                    (count - 1) * per < height,
            ;
        }
        assert forall|i: int| 0 <= i < bands.len() implies (#[trigger] bands[i]).rows > 0
            && bands[i].top == i * per && bands[i].top + bands[i].rows <= height by {
            lemma_band_fits(height, per, count, i);
        }
        assert forall|i: int| 0 <= i < bands.len() - 1 implies (#[trigger] bands[i]).top
            + bands[i].rows == bands[i + 1].top by {
            lemma_band_fits(height, per, count, i);
            lemma_band_fits(height, per, count, i + 1);
        }
        if count > 0 {
            lemma_band_fits(height, per, count, 0);
            lemma_band_fits(height, per, count, count - 1);
        }
    }
}

/// One worker has the whole image as its one band.
pub proof fn lemma_one_worker_one_band(height: nat)
    requires
        0 < height <= usize::MAX,
    ensures
        bands_of(height, 1) == seq![Band { top: 0, rows: height as usize }],
{
    assert(band_rows(height, 1) == height);
    lemma_ceil_div_unique(height, height, 1);
    assert(0 * height == 0) by (nonlinear_arith);
    assert(bands_of(height, 1) =~= seq![Band { top: 0, rows: height as usize }]);
}

/// Every row of the image lies in one of the bands: the result is that
/// band's number.
pub proof fn lemma_band_of_row(height: nat, workers: nat, row: int) -> (i: int)
    requires
        workers >= 1,
        height <= usize::MAX,
        0 <= row < height,
    ensures
        0 <= i < bands_of(height, workers).len(),
        bands_of(height, workers)[i].top <= row,
        row < bands_of(height, workers)[i].top + bands_of(height, workers)[i].rows,
{
    let per = band_rows(height, workers);
    let count = band_count(height, workers);
    lemma_ceil_div_is_least(height, workers);
    assert(per > 0) by (nonlinear_arith)
        requires
            per * workers >= height,
            height > 0,
            per >= 0,
    ;
    lemma_ceil_div_is_least(height, per);
    let i = row / (per as int);
    assert(row == per * i + row % (per as int)) by {
        vstd::arithmetic::div_mod::lemma_fundamental_div_mod(row, per as int);
    }
    assert(0 <= row % (per as int) < per) by {
        vstd::arithmetic::div_mod::lemma_mod_bound(row, per as int);
    }
    assert(0 <= i && i < count && i * per == per * i) by (nonlinear_arith)
        requires
            per > 0,
            per * i <= row,
            row < per * i + per,
            row < height,
            0 <= row,
            count * per >= height,
    ;
    lemma_band_fits(height, per, count, i);
    i
}

/// The height of every band but the last, for an image of `height` rows
/// rendered by `workers` workers.
pub fn rows_per_band(height: usize, workers: usize) -> (per: usize)
    requires
        workers >= 1,
    ensures
        per == band_rows(height as nat, workers as nat),
        per <= height,
        height > 0 ==> per >= 1,
{
    let per: usize = if height == 0 {
        0
    } else {
        (height - 1) / workers + 1
    };
    proof {
        let q = per as int;
        if height > 0 {
            let d = (height - 1) as int;
            assert(d == workers * (d / (workers as int)) + d % (workers as int)) by {
                vstd::arithmetic::div_mod::lemma_fundamental_div_mod(d, workers as int);
            }
            assert(0 <= d % (workers as int) < workers) by {
                vstd::arithmetic::div_mod::lemma_mod_bound(d, workers as int);
            }
            assert(q * workers >= height && (q - 1) * workers < height) by (nonlinear_arith)
                requires
                    q == d / (workers as int) + 1,
                    d == workers * (d / (workers as int)) + d % (workers as int),
                    0 <= d % (workers as int) < workers,
                    d == height - 1,
            ;
        } else {
            assert(q * workers == 0) by (nonlinear_arith)
                requires
                    q == 0,
            ;
        }
        lemma_ceil_div_unique(height as nat, workers as nat, q);
    }
    per
}

/// Cuts the rows `0..height` into bands for `workers` workers. Fewer rows
/// than workers give fewer bands, one row each.
pub fn partition(height: usize, workers: usize) -> (bands: Vec<Band>)
    requires
        workers >= 1,
    ensures
        bands@ == bands_of(height as nat, workers as nat),
        bands@.len() <= workers,
        tiles(bands@, height as int),
{
    let per: usize = rows_per_band(height, workers);
    let mut bands: Vec<Band> = Vec::new();
    let mut top: usize = 0;
    proof {
        lemma_bands_tile(height as nat, workers as nat);
        assert(0 * per == 0) by (nonlinear_arith);
    }
    while top < height
        invariant
            top <= height,
            per == band_rows(height as nat, workers as nat),
            height > 0 ==> per >= 1,
            bands@.len() <= band_count(height as nat, workers as nat),
            top < height ==> top == bands@.len() * per,
            top == height ==> bands@.len() == band_count(height as nat, workers as nat),
            forall|i: int|
                0 <= i < bands@.len() ==> bands@[i] == band_at(height as nat, workers as nat, i),
        decreases height - top,
    {
        let rows: usize = if height - top < per {
            height - top
        } else {
            per
        };
        let ghost n = bands@.len() as int;
        proof {
            lemma_ceil_div_is_least(height as nat, per as nat);
            assert((n + 1) * per == n * per + per) by (nonlinear_arith);
            if top + rows == height {
                lemma_ceil_div_unique(height as nat, per as nat, n + 1);
            } else {
                let count = band_count(height as nat, workers as nat) as int;
                assert(n + 1 < count) by (nonlinear_arith)
                    requires
                        per > 0,
                        (n + 1) * per < height,
                        count * per >= height,
                ;
            }
        }
        bands.push(Band { top, rows });
        top += rows;
    }
    proof {
        if height == 0 {
            lemma_ceil_div_is_least(height as nat, workers as nat);
        }
        assert(bands@ =~= bands_of(height as nat, workers as nat));
    }
    bands
}

} // verus!
