use vstd::prelude::*;
use vstd::arithmetic::div_mod::{lemma_div_is_ordered, lemma_div_multiples_vanish};

use crate::ppm::{grid_view, header_text, image_text, ppm_header, row_text, rows_text, write_row, Pixel};

verus! {

/// First row of band `id` when `hgt` rows go to `n` workers.
pub open spec fn band_start(id: nat, hgt: nat, n: nat) -> nat
    recommends
        n > 0,
{
    id * hgt / n
}

/// Rows `[id * hgt / n, (id + 1) * hgt / n)` go to worker `id` of `n`.
pub fn band(id: usize, hgt: usize, n: usize) -> (r: (usize, usize))
    requires
        0 < n,
        id < n,
        n * hgt <= usize::MAX,
    ensures
        r.0 == band_start(id as nat, hgt as nat, n as nat),
        r.1 == band_start(id as nat + 1, hgt as nat, n as nat),
        r.0 <= r.1 <= hgt,
{
    proof {
        lemma_band_bounds(id as nat, hgt as nat, n as nat);
        assert((id + 1) * hgt <= n * hgt) by (nonlinear_arith)
            requires
                id < n,
        ;
        assert(id * hgt <= (id + 1) * hgt) by (nonlinear_arith);
    }
    let a = id * hgt / n;
    let b = (id + 1) * hgt / n;
    (a, b)
}

proof fn lemma_band_bounds(id: nat, hgt: nat, n: nat)
    requires
        0 < n,
        id < n,
    ensures
        band_start(id, hgt, n) <= band_start(id + 1, hgt, n) <= hgt,
{
    assert(id * hgt <= (id + 1) * hgt) by (nonlinear_arith);
    assert((id + 1) * hgt <= n * hgt) by (nonlinear_arith)
        requires
            id < n,
    ;
    lemma_div_is_ordered((id * hgt) as int, ((id + 1) * hgt) as int, n as int);
    lemma_div_is_ordered(((id + 1) * hgt) as int, (n * hgt) as int, n as int);
    lemma_div_multiples_vanish(hgt as int, n as int);
}

/// The bands cover the image without gap or overlap: the first starts at row
/// 0, each ends where the next starts, none runs backwards, and the last ends
/// at row `hgt`.
pub proof fn lemma_bands_partition(hgt: nat, n: nat)
    requires
        n > 0,
    ensures
        band_start(0, hgt, n) == 0,
        band_start(n, hgt, n) == hgt,
        forall|id: nat| id < n ==> band_start(id, hgt, n) <= #[trigger] band_start(id + 1, hgt, n),
{
    assert(0 * hgt == 0);
    lemma_div_multiples_vanish(hgt as int, n as int);
    assert(n * hgt == hgt * n) by (nonlinear_arith);
    assert forall|id: nat| id < n implies band_start(id, hgt, n) <= #[trigger] band_start(
        id + 1,
        hgt,
        n,
    ) by {
        lemma_band_bounds(id, hgt, n);
    }
}

/// The band of each of `n` workers, in order of worker.
pub fn plan_bands(hgt: usize, n: usize) -> (r: Vec<(usize, usize)>)
    requires
        0 < n,
        n * hgt <= usize::MAX,
    ensures
        r@.len() == n,
        forall|id: int|
            0 <= id < n ==> #[trigger] r@[id] == (
                band_start(id as nat, hgt as nat, n as nat) as usize,
                band_start(id as nat + 1, hgt as nat, n as nat) as usize,
            ),
{
    let mut r: Vec<(usize, usize)> = Vec::new();
    let mut id: usize = 0;
    while id < n
        invariant
            id <= n,
            0 < n,
            n * hgt <= usize::MAX,
            r@.len() == id,
            forall|k: int|
                0 <= k < id ==> #[trigger] r@[k] == (
                    band_start(k as nat, hgt as nat, n as nat) as usize,
                    band_start(k as nat + 1, hgt as nat, n as nat) as usize,
                ),
        decreases n - id,
    {
        let b = band(id, hgt, n);
        r.push(b);
        id = id + 1;
    }
    r
}

/// The order in which image rows reach the output: each worker writes its band
/// from its last row down, and the bands are joined from the last worker down.
/// The result is every row, from the last one (the top of the picture) down
/// to row 0.
pub fn row_order(hgt: usize, n: usize) -> (r: Vec<usize>)
    requires
        0 < n,
        n * hgt <= usize::MAX,
    ensures
        r@ == Seq::new(hgt as nat, |k: int| (hgt - 1 - k) as usize),
{
    proof {
        lemma_bands_partition(hgt as nat, n as nat);
    }
    let mut r: Vec<usize> = Vec::new();
    let mut id = n;
    while id > 0
        invariant
            id <= n,
            0 < n,
            n * hgt <= usize::MAX,
            band_start(0, hgt as nat, n as nat) == 0,
            band_start(n as nat, hgt as nat, n as nat) == hgt,
            r@.len() == hgt - band_start(id as nat, hgt as nat, n as nat),
            forall|k: int| 0 <= k < r@.len() ==> #[trigger] r@[k] == hgt - 1 - k,
        decreases id,
    {
        let (a, b) = band(id - 1, hgt, n);
        let mut i = b;
        while i > a
            invariant
                a <= i <= b <= hgt,
                r@.len() == hgt - i,
                forall|k: int| 0 <= k < r@.len() ==> #[trigger] r@[k] == hgt - 1 - k,
            decreases i,
        {
            i = i - 1;
            r.push(i);
        }
        id = id - 1;
    }
    assert(r@ =~= Seq::new(hgt as nat, |k: int| (hgt - 1 - k) as usize));
    r
}

/// The progress mark due when the worker reaches row `i` of `hgt`: on the rows
/// where `100 * i` is a multiple of `hgt`, the load `100 - 100 * i / hgt` is
/// shown if it is even, at column `load / 2` of a bar of fifty.
pub fn progress_mark(i: usize, hgt: usize) -> (r: Option<usize>)
    requires
        0 < hgt,
        i < hgt,
        i * 100 <= usize::MAX,
    ensures
        r == (if (i * 100) % (hgt as int) == 0 && (100 - (i * 100) / (hgt as int)) % 2 == 0 {
            Some(((100 - (i * 100) / (hgt as int)) / 2) as usize)
        } else {
            None::<usize>
        }),
{
    let p = i * 100;
    if p % hgt == 0 {
        proof {
            lemma_div_is_ordered(p as int, (hgt * 100) as int, hgt as int);
            lemma_div_multiples_vanish(100, hgt as int);
            assert(p <= hgt * 100) by (nonlinear_arith)
                requires
                    i < hgt,
                    p == i * 100,
            ;
            assert(hgt * 100 == 100 * hgt);
        }
        let load = 100 - p / hgt;
        if load % 2 == 0 {
            return Some(load / 2);
        }
    }
    None
}

/// The bytes of the image file: the header for `wth` by `hgt` pixels, then the
/// output of each worker, from the last worker to the first.
pub open spec fn assembled(wth: nat, hgt: nat, parts: Seq<Vec<u8>>) -> Seq<u8>
    decreases parts.len(),
{
    if parts.len() == 0 {
        header_text(wth, hgt)
    } else {
        assembled(wth, hgt, parts.drop_first()) + parts[0]@
    }
}

/// Joins the workers' outputs into one image file, as `assembled` states.
pub fn assemble(wth: usize, hgt: usize, parts: &Vec<Vec<u8>>) -> (r: Vec<u8>)
    ensures
        r@ == assembled(wth as nat, hgt as nat, parts@),
{
    let mut out = ppm_header(wth, hgt);
    let mut id = parts.len();
    assert(parts@.skip(parts@.len() as int) =~= Seq::<Vec<u8>>::empty());
    while id > 0
        invariant
            id <= parts@.len(),
            out@ == assembled(wth as nat, hgt as nat, parts@.skip(id as int)),
        decreases id,
    {
        id = id - 1;
        let part = &parts[id];
        let mut j: usize = 0;
        let ghost start = out@;
        while j < part.len()
            invariant
                j <= part@.len(),
                out@ == start + part@.subrange(0, j as int),
            decreases part@.len() - j,
        {
            out.push(part[j]);
            j = j + 1;
            assert(out@ =~= start + part@.subrange(0, j as int));
        }
        assert(part@.subrange(0, j as int) =~= part@);
        assert(parts@.skip(id as int).drop_first() =~= parts@.skip(id + 1));
        assert(parts@.skip(id as int)[0] == parts@[id as int]);
    }
    assert(parts@.skip(0) =~= parts@);
    out
}

/// What a worker writes for the rows `[a, b)` of `grid` (row 0 at the bottom):
/// each row, from row `b - 1` down to row `a`.
pub open spec fn band_text(grid: Seq<Seq<Pixel>>, a: nat, b: nat) -> Seq<u8>
    decreases b - a,
{
    if b <= a {
        seq![]
    } else {
        row_text(grid[b - 1]) + band_text(grid, a, (b - 1) as nat)
    }
}

/// The rows `[a, b)` of `grid`, from row `b - 1` down to row `a`.
pub open spec fn rows_down(grid: Seq<Seq<Pixel>>, a: nat, b: nat) -> Seq<Seq<Pixel>> {
    Seq::new((b - a) as nat, |k: int| grid[b - 1 - k])
}

proof fn lemma_band_text_split(grid: Seq<Seq<Pixel>>, a: nat, b: nat, c: nat)
    requires
        a <= b <= c,
    ensures
        band_text(grid, a, c) == band_text(grid, b, c) + band_text(grid, a, b),
    decreases c - b,
{
    if b < c {
        lemma_band_text_split(grid, a, b, (c - 1) as nat);
    } else {
        assert(band_text(grid, b, c) =~= Seq::<u8>::empty());
    }
}

proof fn lemma_rows_down(grid: Seq<Seq<Pixel>>, a: nat, b: nat)
    requires
        a <= b,
    ensures
        rows_text(rows_down(grid, a, b)) == band_text(grid, a, b),
    decreases b - a,
{
    if a < b {
        lemma_rows_down(grid, a + 1, b);
        assert(rows_down(grid, a, b).drop_last() =~= rows_down(grid, a + 1, b));
        lemma_band_text_split(grid, a, a + 1, b);
        assert(band_text(grid, a, a) =~= Seq::<u8>::empty());
        assert(band_text(grid, a, a + 1) =~= row_text(grid[a as int]));
    } else {
        assert(rows_down(grid, a, b) =~= Seq::<Seq<Pixel>>::empty());
    }
}

/// Joining the outputs of the workers gives the whole image from the top row
/// down: when each of the `n` workers has written its band of `grid` (row 0 at
/// the bottom) from its last row down, the assembled file is the image of the
/// rows of `grid` from row `hgt - 1` to row 0.
pub proof fn lemma_assembly(wth: nat, hgt: nat, n: nat, grid: Seq<Seq<Pixel>>, parts: Seq<Vec<u8>>)
    requires
        n > 0,
        grid.len() == hgt,
        parts.len() == n,
        forall|id: int|
            0 <= id < n ==> (#[trigger] parts[id])@ == band_text(
                grid,
                band_start(id as nat, hgt, n),
                band_start((id + 1) as nat, hgt, n),
            ),
    ensures
        assembled(wth, hgt, parts) == image_text(wth, hgt, rows_down(grid, 0, hgt)),
{
    lemma_bands_partition(hgt, n);
    lemma_assembled_suffix(wth, hgt, n, grid, parts, 0);
    assert(parts.skip(0) =~= parts);
    lemma_rows_down(grid, 0, hgt);
}

proof fn lemma_assembled_suffix(
    wth: nat,
    hgt: nat,
    n: nat,
    grid: Seq<Seq<Pixel>>,
    parts: Seq<Vec<u8>>,
    k: nat,
)
    requires
        n > 0,
        k <= n,
        parts.len() == n,
        forall|id: int|
            0 <= id < n ==> (#[trigger] parts[id])@ == band_text(
                grid,
                band_start(id as nat, hgt, n),
                band_start((id + 1) as nat, hgt, n),
            ),
    ensures
        assembled(wth, hgt, parts.skip(k as int)) == header_text(wth, hgt) + band_text(
            grid,
            band_start(k, hgt, n),
            hgt,
        ),
    decreases n - k,
{
    lemma_bands_partition(hgt, n);
    if k < n {
        lemma_assembled_suffix(wth, hgt, n, grid, parts, k + 1);
        assert(parts.skip(k as int).drop_first() =~= parts.skip(k as int + 1));
        assert(parts.skip(k as int)[0] == parts[k as int]);
        lemma_band_bounds(k, hgt, n);
        lemma_band_bounds_upper(k + 1, hgt, n);
        lemma_band_text_split(grid, band_start(k, hgt, n), band_start(k + 1, hgt, n), hgt);
    } else {
        assert(parts.skip(k as int) =~= Seq::<Vec<u8>>::empty());
        assert(band_text(grid, hgt, hgt) =~= Seq::<u8>::empty());
        assert(header_text(wth, hgt) + Seq::<u8>::empty() =~= header_text(wth, hgt));
    }
}

proof fn lemma_band_bounds_upper(id: nat, hgt: nat, n: nat)
    requires
        0 < n,
        id <= n,
    ensures
        band_start(id, hgt, n) <= hgt,
{
    assert(id * hgt <= n * hgt) by (nonlinear_arith)
        requires
            id <= n,
    ;
    lemma_div_is_ordered((id * hgt) as int, (n * hgt) as int, n as int);
    lemma_div_multiples_vanish(hgt as int, n as int);
    assert(n * hgt == hgt * n) by (nonlinear_arith);
}

/// The output of one worker for its band: `rows[k]` is the `k`-th row of the
/// band from its bottom, and the rows are written from the last one down.
pub fn write_band(rows: &Vec<Vec<Pixel>>) -> (r: Vec<u8>)
    ensures
        r@ == band_text(grid_view(rows@), 0, rows@.len()),
{
    let ghost g = grid_view(rows@);
    let mut out: Vec<u8> = Vec::new();
    let mut i = rows.len();
    assert(band_text(g, i as nat, rows@.len()) =~= Seq::<u8>::empty());
    while i > 0
        invariant
            i <= rows@.len(),
            g == grid_view(rows@),
            out@ == band_text(g, i as nat, rows@.len()),
        decreases i,
    {
        write_row(&mut out, rows[i - 1].as_slice());
        proof {
            lemma_band_text_split(g, (i - 1) as nat, i as nat, rows@.len());
            assert(band_text(g, (i - 1) as nat, (i - 1) as nat) =~= Seq::<u8>::empty());
            assert(g[i - 1] == rows@[i - 1]@);
            assert(band_text(g, (i - 1) as nat, i as nat) =~= row_text(g[i - 1]));
        }
        i = i - 1;
    }
    out
}

/// Why a render cannot start.
#[derive(Clone, Copy, Debug, PartialEq, Eq, Structural)]
pub enum SetupError {
    /// No camera was configured
    NoCamera,
    /// No environment was configured
    NoSky,
}

/// A render needs a camera and an environment; the camera is checked first.
pub fn check_setup(has_cam: bool, has_sky: bool) -> (r: Result<(), SetupError>)
    ensures
        r == (if !has_cam {
            Err(SetupError::NoCamera)
        } else if !has_sky {
            Err(SetupError::NoSky)
        } else {
            Ok(())
        }),
{
    if !has_cam {
        Err(SetupError::NoCamera)
    } else if !has_sky {
        Err(SetupError::NoSky)
    } else {
        Ok(())
    }
}

} // verus!
