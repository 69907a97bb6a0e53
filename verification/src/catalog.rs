use vstd::prelude::*;
use crate::stats::{BuildError, GlobalStats, Rgba, compat_at, spec_opposite, stats_wf, sum_weights};
use crate::stats::{
    lemma_single_le_sum, lemma_sum_weights_nonneg, lemma_sum_weights_push,
    lemma_sum_weights_update,
};

verus! {

/// A decoded example image: plain RGBA pixels in row-major order.
/// The host decodes whatever file format it likes and hands the
/// engine this value.
pub struct ImageData {
    pub width: usize,
    pub height: usize,
    pub pixels: Vec<Rgba>,
}

/// The image has positive dimensions and exactly one pixel per grid
/// position.
pub open spec fn image_wf(img: ImageData) -> bool {
    &&& img.width >= 1
    &&& img.height >= 1
    &&& img.pixels@.len() == img.width * img.height
}

/// The pixel at column `x`, row `y`.
pub open spec fn spec_pixel(img: ImageData, x: int, y: int) -> Rgba {
    img.pixels@[y * img.width + x]
}

impl ImageData {
    /// Validate and adopt a decoded image.  Succeeds exactly when both
    /// dimensions are positive and the buffer holds one pixel per
    /// position.
    pub fn new(width: usize, height: usize, pixels: Vec<Rgba>) -> (r: Result<
        ImageData,
        BuildError,
    >)
        ensures
            r is Ok ==> {
                let img = r->Ok_0;
                &&& image_wf(img)
                &&& img.width == width
                &&& img.height == height
                &&& img.pixels == pixels
            },
            r is Err ==> !(width >= 1 && height >= 1 && pixels@.len() == width * height),
    {
        if width == 0 || height == 0 {
            return Err(BuildError::EmptyImage);
        }
        if pixels.len() % width != 0 || pixels.len() / width != height {
            proof {
                vstd::arithmetic::div_mod::lemma_fundamental_div_mod(
                    pixels@.len() as int,
                    width as int,
                );
                if pixels@.len() == width * height {
                    vstd::arithmetic::div_mod::lemma_div_multiples_vanish(
                        height as int,
                        width as int,
                    );
                    vstd::arithmetic::div_mod::lemma_mod_multiples_basic(
                        height as int,
                        width as int,
                    );
                }
            }
            return Err(BuildError::EmptyImage);
        }
        proof {
            vstd::arithmetic::div_mod::lemma_fundamental_div_mod(
                pixels@.len() as int,
                width as int,
            );
        }
        Ok(ImageData { width, height, pixels })
    }
}

/// Where position `(i, j)` of a transformed window reads from inside
/// the untransformed window: the closed set of 8 symmetry transforms
/// (4 rotations, each optionally preceded by a horizontal mirror).
/// `t` is the transform index, 0 being the identity.
pub open spec fn spec_transform_src(t: int, i: int, j: int, n: int) -> (int, int) {
    let fi = if t >= 4 {
        n - 1 - i
    } else {
        i
    };
    let r = t % 4;
    if r == 0 {
        (fi, j)
    } else if r == 1 {
        (j, n - 1 - fi)
    } else if r == 2 {
        (n - 1 - fi, n - 1 - j)
    } else {
        (n - 1 - j, fi)
    }
}

/// The pixel that lands at window position `(i, j)` when the window at
/// offset `(ox, oy)` is read under transform `t`.  Window reads wrap
/// around the image edges (torus boundary policy): this keeps every
/// offset a full window and so keeps the frequency statistics uniform
/// across the image; it is the documented choice for edge handling.
pub open spec fn spec_block_px(
    img: ImageData,
    ox: int,
    oy: int,
    t: int,
    n: int,
    i: int,
    j: int,
) -> Rgba {
    let (si, sj) = spec_transform_src(t, i, j, n);
    let ax = if ox + si < img.width {
        ox + si
    } else {
        ox + si - img.width
    };
    let ay = if oy + sj < img.height {
        oy + sj
    } else {
        oy + sj - img.height
    };
    spec_pixel(img, ax, ay)
}

/// The whole transformed window as a row-major pixel sequence.
pub open spec fn spec_block(img: ImageData, ox: int, oy: int, t: int, n: int) -> Seq<Rgba> {
    Seq::new((n * n) as nat, |k: int| spec_block_px(img, ox, oy, t, n, k % n, k / n))
}

/// How many symmetry transforms a build uses.
pub open spec fn spec_transform_count(rotate: bool) -> int {
    if rotate {
        8
    } else {
        1
    }
}

/// The `k`-th window block of the image in scan order: offsets
/// row-major over the image, each offset multiplied by the requested
/// transforms in order.
pub open spec fn spec_window(img: ImageData, n: int, tc: int, k: int) -> Seq<Rgba> {
    let t = k % tc;
    let ox = (k / tc) % (img.width as int);
    let oy = (k / tc) / (img.width as int);
    spec_block(img, ox, oy, t, n)
}

/// How many of the first `k` windows equal the block `b`.
pub open spec fn count_windows_eq(img: ImageData, n: int, tc: int, k: int, b: Seq<Rgba>) -> int
    decreases k,
{
    if k <= 0 {
        0
    } else {
        count_windows_eq(img, n, tc, k - 1, b) + if spec_window(img, n, tc, k - 1) == b {
            1int
        } else {
            0int
        }
    }
}

/// A block that equals no window has occurrence count zero.
pub proof fn lemma_count_windows_zero(img: ImageData, n: int, tc: int, k: int, b: Seq<Rgba>)
    requires
        forall|kk: int| 0 <= kk < k ==> #[trigger] spec_window(img, n, tc, kk) != b,
    ensures
        count_windows_eq(img, n, tc, k, b) == 0,
    decreases k,
{
    if k > 0 {
        lemma_count_windows_zero(img, n, tc, k - 1, b);
    }
}

/// A positive occurrence count names an occurrence.
pub proof fn lemma_count_windows_pos(img: ImageData, n: int, tc: int, k: int, b: Seq<Rgba>)
    requires
        count_windows_eq(img, n, tc, k, b) >= 1,
    ensures
        block_from_image(img, n, tc, k, b),
    decreases k,
{
    if k > 0 {
        if spec_window(img, n, tc, k - 1) == b {
            assert(b == spec_window(img, n, tc, k - 1));
        } else {
            lemma_count_windows_pos(img, n, tc, k - 1, b);
            lemma_block_from_widen(img, n, tc, k - 1, k, b);
        }
    }
}

/// The scan order: the window at offset `(ox, oy)` under transform `t`
/// is window number `(oy * width + ox) * tc + t`.
pub proof fn lemma_window_decompose(img: ImageData, n: int, tc: int, ox: int, oy: int, t: int)
    requires
        image_wf(img),
        1 <= tc,
        0 <= t < tc,
        0 <= ox < img.width,
        0 <= oy < img.height,
    ensures
        spec_window(img, n, tc, (oy * img.width + ox) * tc + t) == spec_block(img, ox, oy, t, n),
{
    let base = oy * (img.width as int) + ox;
    let k = base * tc + t;
    assert(0 <= oy * (img.width as int) + ox) by (nonlinear_arith)
        requires
            0 <= oy,
            0 <= ox,
            1 <= (img.width as int),
    ;
    vstd::arithmetic::div_mod::lemma_fundamental_div_mod_converse(k, tc, base, t);
    vstd::arithmetic::div_mod::lemma_fundamental_div_mod_converse(
        base,
        img.width as int,
        oy,
        ox,
    );
}

/// Window `k` of the image occurs among the interned patterns.
pub open spec fn window_interned(
    img: ImageData,
    n: int,
    tc: int,
    pats: Seq<Vec<Rgba>>,
    k: int,
) -> bool {
    exists|p: int| 0 <= p < pats.len() && #[trigger] pats[p]@ == spec_window(img, n, tc, k)
}

/// The block `b` is one of the first `upto` windows of the image.
pub open spec fn block_from_image(img: ImageData, n: int, tc: int, upto: int, b: Seq<Rgba>) -> bool {
    exists|k: int| 0 <= k < upto && b == #[trigger] spec_window(img, n, tc, k)
}

/// Being a window of a prefix extends to any longer prefix.
pub proof fn lemma_block_from_widen(
    img: ImageData,
    n: int,
    tc: int,
    u1: int,
    u2: int,
    b: Seq<Rgba>,
)
    requires
        u1 <= u2,
        block_from_image(img, n, tc, u1, b),
    ensures
        block_from_image(img, n, tc, u2, b),
{
    let k = choose|k: int| 0 <= k < u1 && b == #[trigger] spec_window(img, n, tc, k);
    assert(0 <= k < u2 && b == spec_window(img, n, tc, k));
}

/// The catalog is exactly the interning of the image's windows: every
/// window occurs among the patterns, every pattern is some window, and
/// each frequency weight counts its pattern's occurrences across the
/// image and the requested symmetry transforms.
pub open spec fn catalog_matches_image(c: PatternCatalog, img: ImageData, rotate: bool) -> bool {
    let tc = spec_transform_count(rotate);
    let total = img.width * img.height * tc;
    &&& (forall|k: int|
        0 <= k < total ==> #[trigger] window_interned(img, c.n as int, tc, c.patterns@, k))
    &&& (forall|p: int|
        0 <= p < c.patterns@.len() ==> #[trigger] block_from_image(
            img,
            c.n as int,
            tc,
            total,
            c.patterns@[p]@,
        ))
    &&& (forall|p: int|
        0 <= p < c.patterns@.len() ==> #[trigger] c.stats.weights@[p] == count_windows_eq(
            img,
            c.n as int,
            tc,
            total,
            c.patterns@[p]@,
        ))
    &&& (forall|p: int, k: int|
        0 <= p < c.patterns@.len() && 0 <= k < total && spec_window(img, c.n as int, tc, k)
            == c.patterns@[p]@ && !(#[trigger] block_from_image(
            img,
            c.n as int,
            tc,
            k,
            c.patterns@[p]@,
        )) ==> (forall|q: int|
            0 <= q < p ==> #[trigger] block_from_image(img, c.n as int, tc, k, c.patterns@[q]@)))
}

/// Row-major indexing: position `(i, j)` of an `n`-wide block sits at
/// index `j * n + i`, and that index decomposes back into `(i, j)`.
pub proof fn lemma_grid_index(i: int, j: int, n: int)
    requires
        0 <= i < n,
        0 <= j,
    ensures
        (j * n + i) % n == i,
        (j * n + i) / n == j,
        j * n + i >= 0,
{
    vstd::arithmetic::div_mod::lemma_fundamental_div_mod_converse(j * n + i, n, j, i);
}

/// Read one pixel of the image.
fn pixel(img: &ImageData, x: usize, y: usize) -> (r: Rgba)
    requires
        image_wf(*img),
        x < img.width,
        y < img.height,
    ensures
        r == spec_pixel(*img, x as int, y as int),
{
    let l = img.pixels.len();
    proof {
        assert(y * img.width + x < img.width * img.height) by (nonlinear_arith)
            requires
                x < img.width,
                y < img.height,
        ;
        assert(l == img.width * img.height);
    }
    img.pixels[y * img.width + x]
}

/// Extract the window at offset `(ox, oy)` under transform `t` as a
/// fresh row-major pixel block.
fn extract_block(img: &ImageData, ox: usize, oy: usize, t: usize, n: usize) -> (v: Vec<Rgba>)
    requires
        image_wf(*img),
        ox < img.width,
        oy < img.height,
        t < 8,
        1 <= n,
        n <= img.width,
        n <= img.height,
    ensures
        v@ == spec_block(*img, ox as int, oy as int, t as int, n as int),
        v@.len() == n * n,
{
    let mut v: Vec<Rgba> = Vec::new();
    let mut j: usize = 0;
    while j < n
        invariant
            image_wf(*img),
            ox < img.width,
            oy < img.height,
            t < 8,
            1 <= n <= img.width,
            n <= img.height,
            j <= n,
            v@.len() == j * n,
            forall|k: int|
                0 <= k < j * n ==> v@[k] == spec_block_px(
                    *img,
                    ox as int,
                    oy as int,
                    t as int,
                    n as int,
                    k % (n as int),
                    k / (n as int),
                ),
        decreases n - j,
    {
        let mut i: usize = 0;
        while i < n
            invariant
                image_wf(*img),
                ox < img.width,
                oy < img.height,
                t < 8,
                1 <= n <= img.width,
                n <= img.height,
                j < n,
                i <= n,
                v@.len() == j * n + i,
                forall|k: int|
                    0 <= k < j * n + i ==> v@[k] == spec_block_px(
                        *img,
                        ox as int,
                        oy as int,
                        t as int,
                        n as int,
                        k % (n as int),
                        k / (n as int),
                    ),
            decreases n - i,
        {
            // source coordinates inside the window
            let fi = if t >= 4 {
                n - 1 - i
            } else {
                i
            };
            let r = t % 4;
            let (si, sj): (usize, usize) = if r == 0 {
                (fi, j)
            } else if r == 1 {
                (j, n - 1 - fi)
            } else if r == 2 {
                (n - 1 - fi, n - 1 - j)
            } else {
                (n - 1 - j, fi)
            };
            // wrap around the image edges
            let ax = if si < img.width - ox {
                ox + si
            } else {
                si - (img.width - ox)
            };
            let ay = if sj < img.height - oy {
                oy + sj
            } else {
                sj - (img.height - oy)
            };
            let px = pixel(img, ax, ay);
            proof {
                assert(px == spec_block_px(
                    *img,
                    ox as int,
                    oy as int,
                    t as int,
                    n as int,
                    i as int,
                    j as int,
                ));
                lemma_grid_index(i as int, j as int, n as int);
                assert(j * n + i < n * n) by (nonlinear_arith)
                    requires
                        i < n,
                        j < n,
                ;
            }
            v.push(px);
            i += 1;
        }
        proof {
            assert(j * n + n == (j + 1) * n) by (nonlinear_arith);
        }
        j += 1;
    }
    proof {
        assert(v@.len() == n * n);
        assert(v@ =~= spec_block(*img, ox as int, oy as int, t as int, n as int));
    }
    v
}

/// Agreement of one overlap position when `b` is shifted one cell in
/// direction `d` from `a` (0 = right, 1 = left, 2 = down, 3 = up):
/// the pixel of the overlap region at `(i, j)` must be the same seen
/// from either block.
pub open spec fn overlap_cell_ok(a: Seq<Rgba>, b: Seq<Rgba>, n: int, d: int, i: int, j: int) -> bool {
    if d == 0 {
        a[j * n + i + 1] == b[j * n + i]
    } else if d == 1 {
        b[j * n + i + 1] == a[j * n + i]
    } else if d == 2 {
        a[(j + 1) * n + i] == b[j * n + i]
    } else {
        b[(j + 1) * n + i] == a[j * n + i]
    }
}

/// Pixel-exact agreement of the whole overlap of two `n`-wide blocks
/// when `b` is shifted one cell in direction `d` from `a`: the shared
/// `(n-1) x n` (or `n x (n-1)`) region agrees pixel for pixel.
pub open spec fn overlap_eq(a: Seq<Rgba>, b: Seq<Rgba>, n: int, d: int) -> bool {
    let iw = if d == 0 || d == 1 { n - 1 } else { n };
    let jw = if d == 0 || d == 1 { n } else { n - 1 };
    forall|i: int, j: int|
        0 <= i < iw && 0 <= j < jw ==> #[trigger] overlap_cell_ok(a, b, n, d, i, j)
}

/// Overlap agreement is symmetric across opposite directions: `b` fits
/// in direction `d` of `a` exactly when `a` fits in the opposite
/// direction of `b`.
pub proof fn lemma_overlap_symmetric(a: Seq<Rgba>, b: Seq<Rgba>, n: int, d: int)
    requires
        0 <= d < 4,
    ensures
        overlap_eq(a, b, n, d) == overlap_eq(b, a, n, spec_opposite(d)),
{
    let od = spec_opposite(d);
    assert forall|i: int, j: int| true implies #[trigger] overlap_cell_ok(a, b, n, d, i, j)
        == overlap_cell_ok(b, a, n, od, i, j) by {}
    if overlap_eq(a, b, n, d) {
        assert forall|i: int, j: int|
            0 <= i < (if od == 0 || od == 1 { n - 1 } else { n }) && 0 <= j < (if od == 0 || od
                == 1 { n } else { n - 1 }) implies #[trigger] overlap_cell_ok(b, a, n, od, i, j) by {
            assert(overlap_cell_ok(a, b, n, d, i, j));
        }
    }
    if overlap_eq(b, a, n, od) {
        assert forall|i: int, j: int|
            0 <= i < (if d == 0 || d == 1 { n - 1 } else { n }) && 0 <= j < (if d == 0 || d == 1 {
                n
            } else { n - 1 }) implies #[trigger] overlap_cell_ok(a, b, n, d, i, j) by {
            assert(overlap_cell_ok(b, a, n, od, i, j));
        }
    }
}

/// Decide overlap agreement for two stored pattern blocks.
fn overlap_check(a: &Vec<Rgba>, b: &Vec<Rgba>, n: usize, d: usize) -> (r: bool)
    requires
        1 <= n,
        a@.len() == n * n,
        b@.len() == n * n,
        d < 4,
    ensures
        r == overlap_eq(a@, b@, n as int, d as int),
{
    let l = a.len();
    let iw = if d == 0 || d == 1 {
        n - 1
    } else {
        n
    };
    let jw = if d == 0 || d == 1 {
        n
    } else {
        n - 1
    };
    let mut j: usize = 0;
    while j < jw
        invariant
            1 <= n,
            a@.len() == n * n,
            b@.len() == n * n,
            l == n * n,
            d < 4,
            iw == (if d == 0 || d == 1 { n - 1 as int } else { n as int }),
            jw == (if d == 0 || d == 1 { n as int } else { n - 1 as int }),
            j <= jw,
            forall|ii: int, jj: int|
                0 <= ii < iw && 0 <= jj < j ==> #[trigger] overlap_cell_ok(
                    a@,
                    b@,
                    n as int,
                    d as int,
                    ii,
                    jj,
                ),
        decreases jw - j,
    {
        let mut i: usize = 0;
        while i < iw
            invariant
                1 <= n,
                a@.len() == n * n,
                b@.len() == n * n,
                l == n * n,
                d < 4,
                iw == (if d == 0 || d == 1 { n - 1 as int } else { n as int }),
                jw == (if d == 0 || d == 1 { n as int } else { n - 1 as int }),
                j < jw,
                i <= iw,
                forall|ii: int, jj: int|
                    0 <= ii < iw && 0 <= jj < j ==> #[trigger] overlap_cell_ok(
                        a@,
                        b@,
                        n as int,
                        d as int,
                        ii,
                        jj,
                    ),
                forall|ii: int|
                    0 <= ii < i ==> #[trigger] overlap_cell_ok(
                        a@,
                        b@,
                        n as int,
                        d as int,
                        ii,
                        j as int,
                    ),
            decreases iw - i,
        {
            proof {
                assert(0 <= j * (n as int) + i && j * (n as int) + i + n < n * n + n && (j + 1) * (
                n as int) + i == j * (n as int) + i + n && (i < n - 1 ==> j * (n as int) + i + 1 < n
                    * n) && (j < n - 1 ==> j * (n as int) + i + n < n * n)) by (nonlinear_arith)
                    requires
                        0 <= i < n,
                        0 <= j < n,
                ;
            }
            let lo = j * n + i;
            let ok = if d == 0 {
                a[lo + 1] == b[lo]
            } else if d == 1 {
                b[lo + 1] == a[lo]
            } else if d == 2 {
                a[lo + n] == b[lo]
            } else {
                b[lo + n] == a[lo]
            };
            if !ok {
                proof {
                    assert(!overlap_cell_ok(a@, b@, n as int, d as int, i as int, j as int));
                }
                return false;
            }
            proof {
                assert(overlap_cell_ok(a@, b@, n as int, d as int, i as int, j as int));
            }
            i += 1;
        }
        j += 1;
    }
    true
}

/// Decide whether two pixel blocks are identical.
fn blocks_equal(a: &Vec<Rgba>, b: &Vec<Rgba>) -> (r: bool)
    ensures
        r == (a@ == b@),
{
    if a.len() != b.len() {
        return false;
    }
    let mut k: usize = 0;
    while k < a.len()
        invariant
            a@.len() == b@.len(),
            k <= a@.len(),
            forall|kk: int| 0 <= kk < k ==> a@[kk] == b@[kk],
        decreases a@.len() - k,
    {
        if a[k] != b[k] {
            return false;
        }
        k += 1;
    }
    proof {
        assert(a@ =~= b@);
    }
    true
}

/// Find an already interned pattern pixel-identical to `block`.
fn find_pattern(patterns: &Vec<Vec<Rgba>>, block: &Vec<Rgba>) -> (r: Option<usize>)
    ensures
        match r {
            Some(i) => i < patterns@.len() && patterns@[i as int]@ == block@,
            None => forall|i: int| 0 <= i < patterns@.len() ==> #[trigger] patterns@[i]@ != block@,
        },
{
    let mut i: usize = 0;
    while i < patterns.len()
        invariant
            i <= patterns@.len(),
            forall|k: int| 0 <= k < i ==> #[trigger] patterns@[k]@ != block@,
        decreases patterns@.len() - i,
    {
        if blocks_equal(&patterns[i], block) {
            return Some(i);
        }
        i += 1;
    }
    None
}

/// The interned pattern catalog: the deduplicated pattern pixel
/// blocks side by side with the statistics derived from them.
pub struct PatternCatalog {
    /// Pattern side length.
    pub n: usize,
    /// One row-major `n x n` pixel block per pattern id.
    pub patterns: Vec<Vec<Rgba>>,
    /// Frequency weights, representative colors and the compatibility
    /// table over the pattern ids.
    pub stats: GlobalStats,
}

/// The index of a block's center pixel, the representative color.
pub open spec fn spec_center(n: int) -> int {
    (n / 2) * n + n / 2
}

/// Well-formedness of a built catalog: the statistics are well formed,
/// no two patterns are pixel-identical, each compatibility entry is
/// exactly pixel agreement of the overlap, and each representative
/// color is the pattern's center pixel.
pub open spec fn catalog_wf(c: PatternCatalog) -> bool {
    &&& stats_wf(c.stats)
    &&& 1 <= c.n
    &&& c.patterns@.len() == c.stats.n_patterns
    &&& (forall|p: int|
        0 <= p < c.patterns@.len() ==> #[trigger] c.patterns@[p]@.len() == c.n * c.n)
    &&& (forall|p: int, q: int|
        0 <= p < c.patterns@.len() && 0 <= q < c.patterns@.len() && p != q
            ==> #[trigger] c.patterns@[p]@ != #[trigger] c.patterns@[q]@)
    &&& (forall|d: int, a: int, b: int|
        0 <= d < 4 && 0 <= a < c.patterns@.len() && 0 <= b < c.patterns@.len()
            ==> #[trigger] compat_at(c.stats, d, a, b) == overlap_eq(
            c.patterns@[a]@,
            c.patterns@[b]@,
            c.n as int,
            d,
        ))
    &&& (forall|p: int|
        0 <= p < c.patterns@.len() ==> #[trigger] c.stats.colors@[p] == c.patterns@[p]@[spec_center(
            c.n as int,
        )])
}

/// Slide an `n x n` window over the whole image (wrapping at the
/// edges), optionally multiply each window by the closed set of 8
/// symmetry transforms, intern the resulting blocks with their
/// occurrence counts, and derive the pairwise compatibility table.
///
/// Succeeds exactly when the pattern size is positive and no larger
/// than either image dimension, and the total window count fits the
/// frequency counters.  The weights of the catalog then sum to
/// exactly (image width) x (image height) x (number of transforms).
pub fn build_catalog(img: &ImageData, n: usize, rotate: bool) -> (r: Result<
    PatternCatalog,
    BuildError,
>)
    requires
        image_wf(*img),
    ensures
        match r {
            Ok(c) => {
                let tc: int = if rotate {
                    8
                } else {
                    1
                };
                &&& catalog_wf(c)
                &&& c.n == n
                &&& 1 <= n <= img.width
                &&& n <= img.height
                &&& sum_weights(c.stats.weights@, c.stats.n_patterns as int) == img.width
                    * img.height * tc
                &&& catalog_matches_image(c, *img, rotate)
            },
            Err(e) => {
                let tc: int = if rotate {
                    8
                } else {
                    1
                };
                ||| (n < 1 || n > img.width || n > img.height) && e == BuildError::PatternTooLarge
                ||| img.width * img.height * tc > u32::MAX && e == BuildError::ImageTooLarge
            },
        },
{
    let tc: usize = if rotate {
        8
    } else {
        1
    };
    if n == 0 || n > img.width || n > img.height {
        return Err(BuildError::PatternTooLarge);
    }
    let l = img.pixels.len();
    proof {
        assert(l == img.width * img.height);
        assert(img.width * img.height * (tc as int) == l * (tc as int)) by (nonlinear_arith)
            requires
                l == img.width * img.height,
        ;
    }
    if l > (u32::MAX as usize) / tc {
        proof {
            assert(l * (tc as int) > u32::MAX) by (nonlinear_arith)
                requires
                    l > (u32::MAX as int) / (tc as int),
                    1 <= tc <= 8,
            ;
        }
        return Err(BuildError::ImageTooLarge);
    }
    proof {
        assert(l * (tc as int) <= u32::MAX) by (nonlinear_arith)
            requires
                l <= (u32::MAX as int) / (tc as int),
                1 <= tc <= 8,
        ;
    }
    proof {
        assert(l <= u32::MAX && l * (tc as int) <= u32::MAX) by (nonlinear_arith)
            requires
                l <= (u32::MAX as int) / (tc as int),
                1 <= tc <= 8,
        ;
        assert(n * n <= l) by (nonlinear_arith)
            requires
                1 <= n <= img.width,
                n <= img.height,
                l == img.width * img.height,
        ;
    }
    let lt = l * tc;
    let total: u32 = lt as u32;
    proof {
        assert((n as int / 2) * n + n as int / 2 < n * n) by (nonlinear_arith)
            requires
                1 <= n,
        ;
    }
    let center = (n / 2) * n + n / 2;
    proof {
        assert(center == spec_center(n as int));
    }

    let mut patterns: Vec<Vec<Rgba>> = Vec::new();
    let mut weights: Vec<u32> = Vec::new();
    let mut colors: Vec<Rgba> = Vec::new();
    let mut done: u32 = 0;

    let mut oy: usize = 0;
    while oy < img.height
        invariant
            image_wf(*img),
            1 <= n <= img.width,
            n <= img.height,
            1 <= tc <= 8,
            center == spec_center(n as int),
            0 <= center < n * n,
            l == img.width * img.height,
            total == l * tc,
            total <= u32::MAX,
            oy <= img.height,
            done == oy * img.width * tc,
            patterns@.len() == weights@.len(),
            patterns@.len() == colors@.len(),
            forall|p: int| 0 <= p < patterns@.len() ==> #[trigger] patterns@[p]@.len() == n * n,
            forall|p: int, q: int|
                0 <= p < patterns@.len() && 0 <= q < patterns@.len() && p != q
                    ==> #[trigger] patterns@[p]@ != #[trigger] patterns@[q]@,
            forall|p: int| 0 <= p < weights@.len() ==> #[trigger] weights@[p] >= 1,
            forall|p: int|
                0 <= p < colors@.len() ==> #[trigger] colors@[p] == patterns@[p]@[spec_center(
                    n as int,
                )],
            sum_weights(weights@, weights@.len() as int) == done,
            forall|k: int|
                0 <= k < done ==> #[trigger] window_interned(
                    *img,
                    n as int,
                    tc as int,
                    patterns@,
                    k,
                ),
            forall|pp: int|
                0 <= pp < patterns@.len() ==> #[trigger] block_from_image(
                    *img,
                    n as int,
                    tc as int,
                    done as int,
                    patterns@[pp]@,
                ),
            forall|pp: int|
                0 <= pp < patterns@.len() ==> #[trigger] weights@[pp] == count_windows_eq(
                    *img,
                    n as int,
                    tc as int,
                    done as int,
                    patterns@[pp]@,
                ),
            forall|pp: int, kk: int|
                0 <= pp < patterns@.len() && 0 <= kk < done && spec_window(
                    *img,
                    n as int,
                    tc as int,
                    kk,
                ) == patterns@[pp]@ && !(#[trigger] block_from_image(
                    *img,
                    n as int,
                    tc as int,
                    kk,
                    patterns@[pp]@,
                )) ==> (forall|q: int|
                    0 <= q < pp ==> #[trigger] block_from_image(
                        *img,
                        n as int,
                        tc as int,
                        kk,
                        patterns@[q]@,
                    )),
        decreases img.height - oy,
    {
        let mut ox: usize = 0;
        while ox < img.width
            invariant
                image_wf(*img),
                1 <= n <= img.width,
                n <= img.height,
                1 <= tc <= 8,
                center == spec_center(n as int),
                0 <= center < n * n,
                l == img.width * img.height,
                total == l * tc,
                total <= u32::MAX,
                oy < img.height,
                ox <= img.width,
                done == (oy * img.width + ox) * tc,
                patterns@.len() == weights@.len(),
                patterns@.len() == colors@.len(),
                forall|p: int| 0 <= p < patterns@.len() ==> #[trigger] patterns@[p]@.len() == n * n,
                forall|p: int, q: int|
                    0 <= p < patterns@.len() && 0 <= q < patterns@.len() && p != q
                        ==> #[trigger] patterns@[p]@ != #[trigger] patterns@[q]@,
                forall|p: int| 0 <= p < weights@.len() ==> #[trigger] weights@[p] >= 1,
                forall|p: int|
                    0 <= p < colors@.len() ==> #[trigger] colors@[p] == patterns@[p]@[spec_center(
                        n as int,
                    )],
                sum_weights(weights@, weights@.len() as int) == done,
                forall|k: int|
                    0 <= k < done ==> #[trigger] window_interned(
                        *img,
                        n as int,
                        tc as int,
                        patterns@,
                        k,
                    ),
                forall|pp: int|
                    0 <= pp < patterns@.len() ==> #[trigger] block_from_image(
                        *img,
                        n as int,
                        tc as int,
                        done as int,
                        patterns@[pp]@,
                    ),
                forall|pp: int|
                    0 <= pp < patterns@.len() ==> #[trigger] weights@[pp] == count_windows_eq(
                        *img,
                        n as int,
                        tc as int,
                        done as int,
                        patterns@[pp]@,
                    ),
                forall|pp: int, kk: int|
                    0 <= pp < patterns@.len() && 0 <= kk < done && spec_window(
                        *img,
                        n as int,
                        tc as int,
                        kk,
                    ) == patterns@[pp]@ && !(#[trigger] block_from_image(
                        *img,
                        n as int,
                        tc as int,
                        kk,
                        patterns@[pp]@,
                    )) ==> (forall|q: int|
                        0 <= q < pp ==> #[trigger] block_from_image(
                            *img,
                            n as int,
                            tc as int,
                            kk,
                            patterns@[q]@,
                        )),
            decreases img.width - ox,
        {
            let mut t: usize = 0;
            while t < tc
                invariant
                    image_wf(*img),
                    1 <= n <= img.width,
                    n <= img.height,
                    1 <= tc <= 8,
                    center == spec_center(n as int),
                    0 <= center < n * n,
                    l == img.width * img.height,
                    total == l * tc,
                    total <= u32::MAX,
                    oy < img.height,
                    ox < img.width,
                    t <= tc,
                    done == (oy * img.width + ox) * tc + t,
                    patterns@.len() == weights@.len(),
                    patterns@.len() == colors@.len(),
                    forall|p: int|
                        0 <= p < patterns@.len() ==> #[trigger] patterns@[p]@.len() == n * n,
                    forall|p: int, q: int|
                        0 <= p < patterns@.len() && 0 <= q < patterns@.len() && p != q
                            ==> #[trigger] patterns@[p]@ != #[trigger] patterns@[q]@,
                    forall|p: int| 0 <= p < weights@.len() ==> #[trigger] weights@[p] >= 1,
                    forall|p: int|
                        0 <= p < colors@.len() ==> #[trigger] colors@[p]
                            == patterns@[p]@[spec_center(n as int)],
                    sum_weights(weights@, weights@.len() as int) == done,
                    forall|k: int|
                        0 <= k < done ==> #[trigger] window_interned(
                            *img,
                            n as int,
                            tc as int,
                            patterns@,
                            k,
                        ),
                    forall|pp: int|
                        0 <= pp < patterns@.len() ==> #[trigger] block_from_image(
                            *img,
                            n as int,
                            tc as int,
                            done as int,
                            patterns@[pp]@,
                        ),
                    forall|pp: int|
                        0 <= pp < patterns@.len() ==> #[trigger] weights@[pp] == count_windows_eq(
                            *img,
                            n as int,
                            tc as int,
                            done as int,
                            patterns@[pp]@,
                        ),
                    forall|pp: int, kk: int|
                        0 <= pp < patterns@.len() && 0 <= kk < done && spec_window(
                            *img,
                            n as int,
                            tc as int,
                            kk,
                        ) == patterns@[pp]@ && !(#[trigger] block_from_image(
                            *img,
                            n as int,
                            tc as int,
                            kk,
                            patterns@[pp]@,
                        )) ==> (forall|q: int|
                            0 <= q < pp ==> #[trigger] block_from_image(
                                *img,
                                n as int,
                                tc as int,
                                kk,
                                patterns@[q]@,
                            )),
                decreases tc - t,
            {
                proof {
                    assert((oy * img.width + ox) * (tc as int) + t < l * tc) by (nonlinear_arith)
                        requires
                            0 <= oy < img.height,
                            0 <= ox < img.width,
                            0 <= t < tc,
                            l == img.width * img.height,
                    ;
                }
                let block = extract_block(img, ox, oy, t, n);
                proof {
                    lemma_window_decompose(
                        *img,
                        n as int,
                        tc as int,
                        ox as int,
                        oy as int,
                        t as int,
                    );
                    assert(spec_window(*img, n as int, tc as int, done as int) == block@);
                }
                match find_pattern(&patterns, &block) {
                    Some(idx) => {
                        proof {
                            lemma_single_le_sum(weights@, idx as int, weights@.len() as int);
                            lemma_sum_weights_nonneg(weights@, idx as int);
                            lemma_sum_weights_update(
                                weights@,
                                idx as int,
                                (weights@[idx as int] + 1) as u32,
                                weights@.len() as int,
                            );
                        }
                        let cur = weights[idx];
                        let ghost weights0 = weights@;
                        weights[idx] = cur + 1;
                        proof {
                            // this window is its own pattern's occurrence: only that
                            // pattern's count grows
                            assert forall|pp: int|
                                0 <= pp < patterns@.len() implies #[trigger] weights@[pp]
                                == count_windows_eq(
                                *img,
                                n as int,
                                tc as int,
                                done as int + 1,
                                patterns@[pp]@,
                            ) by {
                                assert(weights0[pp] == count_windows_eq(
                                    *img,
                                    n as int,
                                    tc as int,
                                    done as int,
                                    patterns@[pp]@,
                                ));
                                if pp != idx as int {
                                    assert(patterns@[pp]@ != patterns@[idx as int]@);
                                    assert(weights@[pp] == weights0[pp]);
                                }
                            }
                            assert(patterns@[idx as int]@ == spec_window(
                                *img,
                                n as int,
                                tc as int,
                                done as int,
                            ));
                            assert(window_interned(
                                *img,
                                n as int,
                                tc as int,
                                patterns@,
                                done as int,
                            ));
                            assert forall|pp: int|
                                0 <= pp < patterns@.len() implies #[trigger] block_from_image(
                                *img,
                                n as int,
                                tc as int,
                                done as int + 1,
                                patterns@[pp]@,
                            ) by {
                                lemma_block_from_widen(
                                    *img,
                                    n as int,
                                    tc as int,
                                    done as int,
                                    done as int + 1,
                                    patterns@[pp]@,
                                );
                            }
                            // first-occurrence order: this window repeats an already
                            // interned pattern, so no first occurrence is at it
                            assert forall|pp: int, kk: int|
                                0 <= pp < patterns@.len() && 0 <= kk < done as int + 1
                                    && spec_window(*img, n as int, tc as int, kk)
                                    == patterns@[pp]@ && !(#[trigger] block_from_image(
                                *img,
                                n as int,
                                tc as int,
                                kk,
                                patterns@[pp]@,
                            )) implies (forall|q: int|
                                0 <= q < pp ==> #[trigger] block_from_image(
                                    *img,
                                    n as int,
                                    tc as int,
                                    kk,
                                    patterns@[q]@,
                                )) by {
                                if kk == done as int {
                                    assert(patterns@[pp]@ == patterns@[idx as int]@);
                                    assert(pp == idx as int);
                                    assert(weights0[pp] >= 1);
                                    lemma_count_windows_pos(
                                        *img,
                                        n as int,
                                        tc as int,
                                        done as int,
                                        patterns@[pp]@,
                                    );
                                    assert(false);
                                }
                            }
                        }
                    },
                    None => {
                        proof {
                            lemma_sum_weights_push(weights@, 1u32, weights@.len() as int);
                            // a window equal to this block would already have been
                            // interned, so the block is new and its count so far is 0
                            assert forall|kk: int|
                                0 <= kk < done as int implies #[trigger] spec_window(
                                *img,
                                n as int,
                                tc as int,
                                kk,
                            ) != block@ by {
                                if spec_window(*img, n as int, tc as int, kk) == block@ {
                                    assert(window_interned(
                                        *img,
                                        n as int,
                                        tc as int,
                                        patterns@,
                                        kk,
                                    ));
                                    let pp = choose|pp: int|
                                        0 <= pp < patterns@.len() && #[trigger] patterns@[pp]@
                                            == spec_window(*img, n as int, tc as int, kk);
                                    assert(patterns@[pp]@ != block@);
                                    assert(false);
                                }
                            }
                            lemma_count_windows_zero(
                                *img,
                                n as int,
                                tc as int,
                                done as int,
                                block@,
                            );
                        }
                        let ghost patterns0 = patterns@;
                        let c = block[center];
                        colors.push(c);
                        weights.push(1);
                        patterns.push(block);
                        proof {
                            let newp = patterns@.len() - 1;
                            assert(patterns@[newp]@ == spec_window(
                                *img,
                                n as int,
                                tc as int,
                                done as int,
                            ));
                            assert forall|kk: int|
                                0 <= kk < done as int + 1 implies #[trigger] window_interned(
                                *img,
                                n as int,
                                tc as int,
                                patterns@,
                                kk,
                            ) by {
                                if kk < done as int {
                                    assert(window_interned(
                                        *img,
                                        n as int,
                                        tc as int,
                                        patterns0,
                                        kk,
                                    ));
                                    let pp = choose|pp: int|
                                        0 <= pp < patterns0.len() && #[trigger] patterns0[pp]@
                                            == spec_window(*img, n as int, tc as int, kk);
                                    assert(patterns@[pp]@ == spec_window(
                                        *img,
                                        n as int,
                                        tc as int,
                                        kk,
                                    ));
                                }
                            }
                            assert forall|pp: int|
                                0 <= pp < patterns@.len() implies #[trigger] block_from_image(
                                *img,
                                n as int,
                                tc as int,
                                done as int + 1,
                                patterns@[pp]@,
                            ) by {
                                if pp < newp {
                                    lemma_block_from_widen(
                                        *img,
                                        n as int,
                                        tc as int,
                                        done as int,
                                        done as int + 1,
                                        patterns@[pp]@,
                                    );
                                } else {
                                    assert(patterns@[pp]@ == spec_window(
                                        *img,
                                        n as int,
                                        tc as int,
                                        done as int,
                                    ));
                                }
                            }
                            assert forall|pp: int|
                                0 <= pp < patterns@.len() implies #[trigger] weights@[pp]
                                == count_windows_eq(
                                *img,
                                n as int,
                                tc as int,
                                done as int + 1,
                                patterns@[pp]@,
                            ) by {
                                if pp < newp {
                                    assert(patterns@[pp]@ == patterns0[pp]@);
                                    assert(patterns0[pp]@ != block@);
                                } else {
                                    assert(count_windows_eq(
                                        *img,
                                        n as int,
                                        tc as int,
                                        done as int,
                                        block@,
                                    ) == 0);
                                }
                            }
                            // first-occurrence order: the new pattern's first
                            // occurrence is this window, and every earlier pattern
                            // already occurred before it
                            assert forall|pp: int, kk: int|
                                0 <= pp < patterns@.len() && 0 <= kk < done as int + 1
                                    && spec_window(*img, n as int, tc as int, kk)
                                    == patterns@[pp]@ && !(#[trigger] block_from_image(
                                *img,
                                n as int,
                                tc as int,
                                kk,
                                patterns@[pp]@,
                            )) implies (forall|q: int|
                                0 <= q < pp ==> #[trigger] block_from_image(
                                    *img,
                                    n as int,
                                    tc as int,
                                    kk,
                                    patterns@[q]@,
                                )) by {
                                if pp == newp {
                                    if kk == done as int {
                                        assert forall|q: int|
                                            0 <= q < pp implies #[trigger] block_from_image(
                                            *img,
                                            n as int,
                                            tc as int,
                                            kk,
                                            patterns@[q]@,
                                        ) by {
                                            assert(patterns@[q]@ == patterns0[q]@);
                                            assert(block_from_image(
                                                *img,
                                                n as int,
                                                tc as int,
                                                done as int,
                                                patterns0[q]@,
                                            ));
                                        }
                                    } else {
                                        assert(spec_window(*img, n as int, tc as int, kk)
                                            != block@);
                                        assert(false);
                                    }
                                } else {
                                    assert(patterns@[pp]@ == patterns0[pp]@);
                                    if kk == done as int {
                                        assert(patterns0[pp]@ != block@);
                                        assert(false);
                                    } else {
                                        assert forall|q: int|
                                            0 <= q < pp implies #[trigger] block_from_image(
                                            *img,
                                            n as int,
                                            tc as int,
                                            kk,
                                            patterns@[q]@,
                                        ) by {
                                            assert(patterns@[q]@ == patterns0[q]@);
                                            assert(block_from_image(
                                                *img,
                                                n as int,
                                                tc as int,
                                                kk,
                                                patterns0[q]@,
                                            ));
                                        }
                                    }
                                }
                            }
                        }
                    },
                }
                done = done + 1;
                t += 1;
            }
            proof {
                assert((oy * img.width + ox) * (tc as int) + tc == (oy * img.width + ox + 1) * (
                tc as int)) by (nonlinear_arith);
            }
            ox += 1;
        }
        proof {
            assert((oy * img.width + img.width) * (tc as int) == (oy + 1) * img.width * (tc as int))
                by (nonlinear_arith);
            assert(oy * img.width * (tc as int) == (oy * img.width) * (tc as int))
                by (nonlinear_arith);
        }
        oy += 1;
    }
    proof {
        assert(done == img.height * img.width * tc ==> done == img.width * img.height * (tc as int))
            by (nonlinear_arith);
        assert(done == total);
        if patterns@.len() == 0 {
            assert(sum_weights(weights@, 0) == 0);
            assert(l * (tc as int) >= 1) by (nonlinear_arith)
                requires
                    l >= 1,
                    tc >= 1,
            ;
        }
    }

    let np = patterns.len();
    let mut compat: Vec<Vec<Vec<bool>>> = Vec::new();
    let mut d: usize = 0;
    while d < 4
        invariant
            1 <= n,
            np == patterns@.len(),
            1 <= np,
            forall|p: int| 0 <= p < np ==> #[trigger] patterns@[p]@.len() == n * n,
            d <= 4,
            compat@.len() == d,
            forall|dd: int| 0 <= dd < d ==> #[trigger] compat@[dd]@.len() == np,
            forall|dd: int, a: int|
                0 <= dd < d && 0 <= a < np ==> #[trigger] compat@[dd]@[a]@.len() == np,
            forall|dd: int, a: int, b: int|
                0 <= dd < d && 0 <= a < np && 0 <= b < np ==> #[trigger] compat@[dd]@[a]@[b]
                    == overlap_eq(patterns@[a]@, patterns@[b]@, n as int, dd),
        decreases 4 - d,
    {
        let mut plane: Vec<Vec<bool>> = Vec::new();
        let mut a: usize = 0;
        while a < np
            invariant
                1 <= n,
                np == patterns@.len(),
                d < 4,
                a <= np,
                forall|p: int| 0 <= p < np ==> #[trigger] patterns@[p]@.len() == n * n,
                plane@.len() == a,
                forall|aa: int| 0 <= aa < a ==> #[trigger] plane@[aa]@.len() == np,
                forall|aa: int, b: int|
                    0 <= aa < a && 0 <= b < np ==> #[trigger] plane@[aa]@[b] == overlap_eq(
                        patterns@[aa]@,
                        patterns@[b]@,
                        n as int,
                        d as int,
                    ),
            decreases np - a,
        {
            let mut row: Vec<bool> = Vec::new();
            let mut b: usize = 0;
            while b < np
                invariant
                    1 <= n,
                    np == patterns@.len(),
                    d < 4,
                    a < np,
                    b <= np,
                    forall|p: int| 0 <= p < np ==> #[trigger] patterns@[p]@.len() == n * n,
                    row@.len() == b,
                    forall|bb: int|
                        0 <= bb < b ==> #[trigger] row@[bb] == overlap_eq(
                            patterns@[a as int]@,
                            patterns@[bb]@,
                            n as int,
                            d as int,
                        ),
                decreases np - b,
            {
                let ok = overlap_check(&patterns[a], &patterns[b], n, d);
                row.push(ok);
                b += 1;
            }
            plane.push(row);
            a += 1;
        }
        compat.push(plane);
        d += 1;
    }

    let stats = GlobalStats { n_patterns: np, weights, colors, compat };
    proof {
        assert forall|dd: int, aa: int, bb: int|
            0 <= dd < 4 && 0 <= aa < np && 0 <= bb < np implies #[trigger] compat_at(
            stats,
            dd,
            aa,
            bb,
        ) == compat_at(stats, spec_opposite(dd), bb, aa) by {
            lemma_overlap_symmetric(patterns@[aa]@, patterns@[bb]@, n as int, dd);
        }
        assert(stats_wf(stats));
    }
    let cat = PatternCatalog { n, patterns, stats };
    proof {
        assert forall|dd: int, aa: int, bb: int|
            0 <= dd < 4 && 0 <= aa < cat.patterns@.len() && 0 <= bb < cat.patterns@.len()
            implies #[trigger] compat_at(cat.stats, dd, aa, bb) == overlap_eq(
            cat.patterns@[aa]@,
            cat.patterns@[bb]@,
            cat.n as int,
            dd,
        ) by {}
        assert(catalog_wf(cat));
        assert(tc as int == spec_transform_count(rotate));
        assert(done == img.width * img.height * (tc as int));
        assert(catalog_matches_image(cat, *img, rotate));
    }
    Ok(cat)
}

/// The block `b` is one of the first `pfx` interned patterns.
pub open spec fn block_in_prefix(pats: Seq<Vec<Rgba>>, pfx: int, b: Seq<Rgba>) -> bool {
    exists|q: int| 0 <= q < pfx && #[trigger] pats[q]@ == b
}

/// Below any window whose block is outside the prefix lies a least one.
proof fn lemma_least_new_window(
    img: ImageData,
    n: int,
    tc: int,
    pats: Seq<Vec<Rgba>>,
    pfx: int,
    k0: int,
)
    requires
        0 <= k0,
        !block_in_prefix(pats, pfx, spec_window(img, n, tc, k0)),
    ensures
        exists|m: int|
            0 <= m <= k0 && !block_in_prefix(pats, pfx, #[trigger] spec_window(img, n, tc, m)) && (
            forall|kk: int|
                0 <= kk < m ==> block_in_prefix(
                    pats,
                    pfx,
                    #[trigger] spec_window(img, n, tc, kk),
                )),
    decreases k0,
{
    if forall|kk: int|
        0 <= kk < k0 ==> block_in_prefix(pats, pfx, #[trigger] spec_window(img, n, tc, kk)) {
        assert(0 <= k0 <= k0 && !block_in_prefix(pats, pfx, spec_window(img, n, tc, k0)) && (
        forall|kk: int|
            0 <= kk < k0 ==> block_in_prefix(pats, pfx, #[trigger] spec_window(img, n, tc, kk))));
    } else {
        let kk = choose|kk: int|
            0 <= kk < k0 && !block_in_prefix(pats, pfx, #[trigger] spec_window(img, n, tc, kk));
        lemma_least_new_window(img, n, tc, pats, pfx, kk);
        let m = choose|m: int|
            0 <= m <= kk && !block_in_prefix(pats, pfx, #[trigger] spec_window(img, n, tc, m)) && (
            forall|mm: int|
                0 <= mm < m ==> block_in_prefix(
                    pats,
                    pfx,
                    #[trigger] spec_window(img, n, tc, mm),
                ));
        assert(0 <= m <= k0 && !block_in_prefix(pats, pfx, spec_window(img, n, tc, m)));
    }
}

/// Each pattern of a matching catalog sits at the least window whose
/// block is new relative to the patterns before it.
#[verifier::rlimit(60)]
proof fn lemma_pattern_least(c: PatternCatalog, img: ImageData, rotate: bool, p: int) -> (m: int)
    requires
        catalog_wf(c),
        catalog_matches_image(c, img, rotate),
        0 <= p < c.patterns@.len(),
    ensures
        0 <= m < img.width * img.height * spec_transform_count(rotate),
        c.patterns@[p]@ == spec_window(img, c.n as int, spec_transform_count(rotate), m),
        !block_in_prefix(c.patterns@, p, spec_window(img, c.n as int, spec_transform_count(rotate), m)),
        forall|kk: int|
            0 <= kk < m ==> block_in_prefix(
                c.patterns@,
                p,
                #[trigger] spec_window(img, c.n as int, spec_transform_count(rotate), kk),
            ),
{
    let tc = spec_transform_count(rotate);
    let total = img.width * img.height * tc;
    let nn = c.n as int;
    assert(block_from_image(img, nn, tc, total, c.patterns@[p]@));
    let k0 = choose|k0: int|
        0 <= k0 < total && c.patterns@[p]@ == #[trigger] spec_window(img, nn, tc, k0);
    assert(!block_in_prefix(c.patterns@, p, spec_window(img, nn, tc, k0))) by {
        if block_in_prefix(c.patterns@, p, spec_window(img, nn, tc, k0)) {
            let q = choose|q: int|
                0 <= q < p && #[trigger] c.patterns@[q]@ == spec_window(img, nn, tc, k0);
            assert(c.patterns@[q]@ == c.patterns@[p]@);
        }
    }
    lemma_least_new_window(img, nn, tc, c.patterns@, p, k0);
    let m = choose|m: int|
        0 <= m <= k0 && !block_in_prefix(c.patterns@, p, #[trigger] spec_window(img, nn, tc, m))
            && (forall|kk: int|
            0 <= kk < m ==> block_in_prefix(
                c.patterns@,
                p,
                #[trigger] spec_window(img, nn, tc, kk),
            ));
    assert(window_interned(img, nn, tc, c.patterns@, m));
    let r = choose|r: int|
        0 <= r < c.patterns@.len() && #[trigger] c.patterns@[r]@ == spec_window(img, nn, tc, m);
    assert(r >= p) by {
        if r < p {
            assert(block_in_prefix(c.patterns@, p, spec_window(img, nn, tc, m)));
        }
    }
    if r > p {
        // m is the first occurrence of pattern r, so by the ordering
        // clause pattern p occurred before m, which contradicts every
        // earlier window lying in the prefix
        assert(!block_from_image(img, nn, tc, m, c.patterns@[r]@)) by {
            if block_from_image(img, nn, tc, m, c.patterns@[r]@) {
                let kk = choose|kk: int|
                    0 <= kk < m && c.patterns@[r]@ == #[trigger] spec_window(img, nn, tc, kk);
                assert(block_in_prefix(c.patterns@, p, spec_window(img, nn, tc, kk)));
                let q = choose|q: int|
                    0 <= q < p && #[trigger] c.patterns@[q]@ == spec_window(img, nn, tc, kk);
                assert(c.patterns@[q]@ == c.patterns@[r]@);
            }
        }
        assert(block_from_image(img, nn, tc, m, c.patterns@[p]@));
        let kk = choose|kk: int|
            0 <= kk < m && c.patterns@[p]@ == #[trigger] spec_window(img, nn, tc, kk);
        assert(block_in_prefix(c.patterns@, p, spec_window(img, nn, tc, kk)));
        let q = choose|q: int|
            0 <= q < p && #[trigger] c.patterns@[q]@ == spec_window(img, nn, tc, kk);
        assert(c.patterns@[q]@ == c.patterns@[p]@);
        assert(false);
    }
    m
}

/// Patterns of two matching catalogs agree at `p` once they agree
/// below it.
proof fn lemma_prefix_agree(
    c1: PatternCatalog,
    c2: PatternCatalog,
    img: ImageData,
    rotate: bool,
    p: int,
)
    requires
        catalog_wf(c1),
        catalog_wf(c2),
        c1.n == c2.n,
        catalog_matches_image(c1, img, rotate),
        catalog_matches_image(c2, img, rotate),
        0 <= p < c1.patterns@.len(),
        p < c2.patterns@.len(),
        forall|q: int| 0 <= q < p ==> #[trigger] c1.patterns@[q]@ == c2.patterns@[q]@,
    ensures
        c1.patterns@[p]@ == c2.patterns@[p]@,
{
    let tc = spec_transform_count(rotate);
    let nn = c1.n as int;
    let m1 = lemma_pattern_least(c1, img, rotate, p);
    let m2 = lemma_pattern_least(c2, img, rotate, p);
    assert forall|b: Seq<Rgba>| #[trigger] block_in_prefix(c1.patterns@, p, b) == block_in_prefix(
        c2.patterns@,
        p,
        b,
    ) by {
        if block_in_prefix(c1.patterns@, p, b) {
            let q = choose|q: int| 0 <= q < p && #[trigger] c1.patterns@[q]@ == b;
            assert(c2.patterns@[q]@ == b);
        }
        if block_in_prefix(c2.patterns@, p, b) {
            let q = choose|q: int| 0 <= q < p && #[trigger] c2.patterns@[q]@ == b;
            assert(c1.patterns@[q]@ == b);
        }
    }
    if m1 < m2 {
        assert(block_in_prefix(c2.patterns@, p, spec_window(img, nn, tc, m1)));
        assert(false);
    }
    if m2 < m1 {
        assert(block_in_prefix(c1.patterns@, p, spec_window(img, nn, tc, m2)));
        assert(false);
    }
}

/// Patterns of two matching catalogs agree on a whole prefix.
proof fn lemma_prefix_all(
    c1: PatternCatalog,
    c2: PatternCatalog,
    img: ImageData,
    rotate: bool,
    p: int,
)
    requires
        catalog_wf(c1),
        catalog_wf(c2),
        c1.n == c2.n,
        catalog_matches_image(c1, img, rotate),
        catalog_matches_image(c2, img, rotate),
        0 <= p <= c1.patterns@.len(),
        p <= c2.patterns@.len(),
    ensures
        forall|q: int| 0 <= q < p ==> #[trigger] c1.patterns@[q]@ == c2.patterns@[q]@,
    decreases p,
{
    if p > 0 {
        lemma_prefix_all(c1, c2, img, rotate, p - 1);
        lemma_prefix_agree(c1, c2, img, rotate, p - 1);
    }
}

/// Catalog construction is deterministic: any two well-formed catalogs
/// of the same pattern size that match the same image under the same
/// transform choice are the same catalog — same patterns in the same
/// order, same weights, colors and compatibility table.  Two engines
/// built from the same image, grid and seed therefore start identical.
pub proof fn lemma_catalog_unique(
    c1: PatternCatalog,
    c2: PatternCatalog,
    img: ImageData,
    rotate: bool,
)
    requires
        catalog_wf(c1),
        catalog_wf(c2),
        c1.n == c2.n,
        catalog_matches_image(c1, img, rotate),
        catalog_matches_image(c2, img, rotate),
    ensures
        c1.patterns@.len() == c2.patterns@.len(),
        forall|p: int|
            0 <= p < c1.patterns@.len() ==> #[trigger] c1.patterns@[p]@ == c2.patterns@[p]@,
        c1.stats.n_patterns == c2.stats.n_patterns,
        c1.stats.weights@ == c2.stats.weights@,
        c1.stats.colors@ == c2.stats.colors@,
        forall|d: int, a: int, b: int|
            0 <= d < 4 && 0 <= a < c1.stats.n_patterns && 0 <= b < c1.stats.n_patterns
                ==> #[trigger] compat_at(c1.stats, d, a, b) == compat_at(c2.stats, d, a, b),
{
    let tc = spec_transform_count(rotate);
    let nn = c1.n as int;
    let len1 = c1.patterns@.len() as int;
    let len2 = c2.patterns@.len() as int;
    // neither catalog holds a pattern the other misses
    if len1 < len2 {
        lemma_prefix_all(c1, c2, img, rotate, len1);
        assert(block_from_image(img, nn, tc, img.width * img.height * tc, c2.patterns@[len1]@));
        let k = choose|k: int|
            0 <= k < img.width * img.height * tc && c2.patterns@[len1]@ == #[trigger] spec_window(
                img,
                nn,
                tc,
                k,
            );
        assert(window_interned(img, nn, tc, c1.patterns@, k));
        let r = choose|r: int|
            0 <= r < len1 && #[trigger] c1.patterns@[r]@ == spec_window(img, nn, tc, k);
        assert(c2.patterns@[r]@ == c2.patterns@[len1]@);
        assert(false);
    }
    if len2 < len1 {
        lemma_prefix_all(c1, c2, img, rotate, len2);
        assert(block_from_image(img, nn, tc, img.width * img.height * tc, c1.patterns@[len2]@));
        let k = choose|k: int|
            0 <= k < img.width * img.height * tc && c1.patterns@[len2]@ == #[trigger] spec_window(
                img,
                nn,
                tc,
                k,
            );
        assert(window_interned(img, nn, tc, c2.patterns@, k));
        let r = choose|r: int|
            0 <= r < len2 && #[trigger] c2.patterns@[r]@ == spec_window(img, nn, tc, k);
        assert(c1.patterns@[r]@ == c1.patterns@[len2]@);
        assert(false);
    }
    lemma_prefix_all(c1, c2, img, rotate, len1);
    assert forall|p: int|
        0 <= p < c1.stats.weights@.len() implies #[trigger] c1.stats.weights@[p]
        == c2.stats.weights@[p] by {
        assert(c1.patterns@[p]@ == c2.patterns@[p]@);
    }
    assert(c1.stats.weights@ =~= c2.stats.weights@);
    assert forall|p: int|
        0 <= p < c1.stats.colors@.len() implies #[trigger] c1.stats.colors@[p]
        == c2.stats.colors@[p] by {
        assert(c1.patterns@[p]@ == c2.patterns@[p]@);
        assert(c1.stats.colors@[p] == c1.patterns@[p]@[spec_center(nn)]);
        assert(c2.stats.colors@[p] == c2.patterns@[p]@[spec_center(nn)]);
    }
    assert(c1.stats.colors@ =~= c2.stats.colors@);
    assert forall|d: int, a: int, b: int|
        0 <= d < 4 && 0 <= a < c1.stats.n_patterns && 0 <= b < c1.stats.n_patterns
        implies #[trigger] compat_at(c1.stats, d, a, b) == compat_at(c2.stats, d, a, b) by {
        assert(compat_at(c1.stats, d, a, b) == overlap_eq(
            c1.patterns@[a]@,
            c1.patterns@[b]@,
            nn,
            d,
        ));
        assert(compat_at(c2.stats, d, a, b) == overlap_eq(
            c2.patterns@[a]@,
            c2.patterns@[b]@,
            nn,
            d,
        ));
    }
}

} // verus!
