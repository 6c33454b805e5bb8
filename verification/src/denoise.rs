//! The neighbor denoiser: removes isolated-color pixels by majority vote
//! over the 8-neighborhood. An opaque pixel whose color appears among none
//! of its in-bounds opaque neighbors takes the most frequent neighbor color,
//! ties broken by the larger red, then green, then blue channel; alpha is
//! never changed. The pass reads only the original buffer, so no output
//! pixel depends on an already-updated neighbor.

use vstd::prelude::*;
use crate::buffer::{Pixel, PixelBuffer, Rgb, TransformError};
use crate::processor::seq_pixel;

verus! {

/// How often color `c` occurs in `s`.
pub open spec fn color_count(s: Seq<Rgb>, c: Rgb) -> nat
    decreases s.len(),
{
    if s.len() == 0 {
        0
    } else {
        color_count(s.drop_last(), c) + if s.last() == c {
            1nat
        } else {
            0nat
        }
    }
}

/// The vote order: `c` beats `w` when it occurs more often in `s`, or as
/// often with a larger red channel, ties broken further by green then blue.
pub open spec fn beats(s: Seq<Rgb>, c: Rgb, w: Rgb) -> bool {
    ||| color_count(s, c) > color_count(s, w)
    ||| (color_count(s, c) == color_count(s, w) && (c.r > w.r || (c.r == w.r && (c.g > w.g || (c.g
        == w.g && c.b > w.b)))))
}

/// The winner among the first `i` candidates of `s`, counting over all of
/// `s`: the earliest candidate no later one beats.
pub open spec fn vote_upto(s: Seq<Rgb>, i: int) -> Rgb
    decreases i,
{
    if i <= 1 {
        s[0]
    } else {
        if beats(s, s[i - 1], vote_upto(s, i - 1)) {
            s[i - 1]
        } else {
            vote_upto(s, i - 1)
        }
    }
}

/// The most frequent color of a non-empty neighbor list, under the vote
/// order.
pub open spec fn vote(s: Seq<Rgb>) -> Rgb {
    vote_upto(s, s.len() as int)
}

/// Is (x, y) inside the buffer and opaque there?
pub open spec fn neighbor_in(b: PixelBuffer, x: int, y: int) -> bool {
    0 <= x < b.width && 0 <= y < b.height && b.spec_pixel_at(x, y).a != 0
}

/// The color at (x, y) as a candidate list: one entry when (x, y) is an
/// in-bounds opaque pixel, else none.
pub open spec fn nb1(b: PixelBuffer, x: int, y: int) -> Seq<Rgb> {
    if neighbor_in(b, x, y) {
        seq![b.spec_pixel_at(x, y).spec_rgb()]
    } else {
        Seq::empty()
    }
}

/// The opaque in-bounds neighbors of (x, y), in row-major scan order.
pub open spec fn neighbor_colors(b: PixelBuffer, x: int, y: int) -> Seq<Rgb> {
    nb1(b, x - 1, y - 1) + nb1(b, x, y - 1) + nb1(b, x + 1, y - 1) + nb1(b, x - 1, y) + nb1(
        b,
        x + 1,
        y,
    ) + nb1(b, x - 1, y + 1) + nb1(b, x, y + 1) + nb1(b, x + 1, y + 1)
}

/// What the denoiser makes of the pixel at (x, y): an opaque pixel isolated
/// from a non-empty neighbor set takes the winning neighbor color and keeps
/// its alpha; every other pixel is left untouched.
pub open spec fn spec_denoise_pixel(b: PixelBuffer, x: int, y: int) -> Pixel {
    let p = b.spec_pixel_at(x, y);
    let ns = neighbor_colors(b, x, y);
    if p.a != 0 && ns.len() > 0 && !ns.contains(p.spec_rgb()) {
        Pixel { r: vote(ns).r, g: vote(ns).g, b: vote(ns).b, a: p.a }
    } else {
        p
    }
}

/// The pixel at (x, y) is settled: transparent, without opaque neighbors, or
/// sharing its color with some neighbor.
pub open spec fn spec_pixel_settled(b: PixelBuffer, x: int, y: int) -> bool {
    let p = b.spec_pixel_at(x, y);
    p.a != 0 ==> (neighbor_colors(b, x, y).len() == 0 || neighbor_colors(b, x, y).contains(
        p.spec_rgb(),
    ))
}

/// No pixel of the buffer is isolated.
pub open spec fn is_clean(b: PixelBuffer) -> bool {
    forall|x: int, y: int|
        0 <= x < b.width && 0 <= y < b.height ==> spec_pixel_settled(b, x, y)
}

/// Denoiser fixed point: on a buffer with no isolated pixel — as any
/// already-denoised buffer that created no new isolation — the denoiser
/// changes no pixel, so running it again yields an identical buffer.
pub proof fn lemma_denoise_fixed_point(b: PixelBuffer)
    requires
        is_clean(b),
    ensures
        forall|x: int, y: int|
            0 <= x < b.width && 0 <= y < b.height ==> spec_denoise_pixel(b, x, y)
                == b.spec_pixel_at(x, y),
{
    assert forall|x: int, y: int|
        0 <= x < b.width && 0 <= y < b.height implies spec_denoise_pixel(b, x, y)
        == b.spec_pixel_at(x, y) by {
        assert(spec_pixel_settled(b, x, y));
    }
}

/// The denoiser never touches alpha: every output pixel keeps its input
/// alpha, and a transparent pixel is left untouched entirely.
pub proof fn lemma_denoise_preserves_alpha(b: PixelBuffer, x: int, y: int)
    ensures
        spec_denoise_pixel(b, x, y).a == b.spec_pixel_at(x, y).a,
        b.spec_pixel_at(x, y).a == 0 ==> spec_denoise_pixel(b, x, y) == b.spec_pixel_at(x, y),
{
}

/// Whether `c` occurs in the neighbor list.
fn contains_rgb(ns: &Vec<Rgb>, c: Rgb) -> (r: bool)
    ensures
        r == ns@.contains(c),
{
    let mut i: usize = 0;
    while i < ns.len()
        invariant
            i <= ns@.len(),
            forall|k: int| 0 <= k < i ==> ns@[k] != c,
        decreases ns@.len() - i,
    {
        if ns[i] == c {
            return true;
        }
        i += 1;
    }
    false
}

/// Counts how often `c` occurs in the neighbor list.
fn count_rgb(ns: &Vec<Rgb>, c: Rgb) -> (n: usize)
    ensures
        n == color_count(ns@, c),
{
    let mut n: usize = 0;
    let mut i: usize = 0;
    while i < ns.len()
        invariant
            i <= ns@.len(),
            n <= i,
            n == color_count(ns@.take(i as int), c),
        decreases ns@.len() - i,
    {
        proof {
            assert(ns@.take(i as int + 1).drop_last() =~= ns@.take(i as int));
            assert(ns@.take(i as int + 1).last() == ns@[i as int]);
        }
        if ns[i] == c {
            n += 1;
        }
        i += 1;
    }
    proof {
        assert(ns@.take(ns@.len() as int) =~= ns@);
    }
    n
}

/// The winning color of a non-empty neighbor list.
fn vote_exec(ns: &Vec<Rgb>) -> (w: Rgb)
    requires
        ns@.len() >= 1,
    ensures
        w == vote(ns@),
{
    let mut best = ns[0];
    let mut best_count = count_rgb(ns, best);
    let mut i: usize = 1;
    while i < ns.len()
        invariant
            1 <= i <= ns@.len(),
            best == vote_upto(ns@, i as int),
            best_count == color_count(ns@, best),
        decreases ns@.len() - i,
    {
        let c = ns[i];
        let cnt = count_rgb(ns, c);
        let better = cnt > best_count || (cnt == best_count && (c.r > best.r || (c.r == best.r && (
        c.g > best.g || (c.g == best.g && c.b > best.b)))));
        proof {
            assert(better == beats(ns@, ns@[i as int], vote_upto(ns@, i as int)));
        }
        if better {
            best = c;
            best_count = cnt;
        }
        proof {
            assert(best == vote_upto(ns@, i as int + 1));
        }
        i += 1;
    }
    best
}

/// Appends the candidate at (nx, ny) when it is an in-bounds opaque pixel.
fn push_neighbor(ns: &mut Vec<Rgb>, img: &PixelBuffer, nx: i64, ny: i64)
    requires
        img.wf(),
        nx <= usize::MAX,
        ny <= usize::MAX,
    ensures
        final(ns)@ == old(ns)@ + nb1(*img, nx as int, ny as int),
{
    let ghost entry = nb1(*img, nx as int, ny as int);
    if nx >= 0 && ny >= 0 {
        let ux = nx as usize;
        let uy = ny as usize;
        if ux < img.width && uy < img.height {
            let p = img.get_pixel_at(ux, uy);
            if p.a != 0 {
                ns.push(p.rgb());
                proof {
                    assert(ns@ =~= old(ns)@ + entry);
                }
                return ;
            }
        }
    }
    proof {
        assert(entry =~= Seq::empty());
        assert(ns@ =~= old(ns)@ + entry);
    }
}

/// Collects the opaque in-bounds neighbors of (x, y), row-major.
fn collect_neighbors(img: &PixelBuffer, x: usize, y: usize) -> (ns: Vec<Rgb>)
    requires
        img.wf(),
        x < img.width,
        y < img.height,
    ensures
        ns@ == neighbor_colors(*img, x as int, y as int),
{
    proof {
        assert(img.width <= img.width * img.height) by (nonlinear_arith)
            requires
                img.height >= 1,
                img.width >= 0,
        ;
        assert(img.height <= img.width * img.height) by (nonlinear_arith)
            requires
                img.width >= 1,
                img.height >= 0,
        ;
        assert(img.width * img.height <= img.width * img.height * 4);
        assert(img.data.len() <= usize::MAX);
        assert(img.width < usize::MAX);
        assert(img.height < usize::MAX);
        // width * height * 4 fits in usize, so coordinates fit comfortably in i64
        assert(4 * (img.width * img.height) == img.width * img.height * 4);
        assert(img.width <= usize::MAX / 4);
        assert(img.height <= usize::MAX / 4);
    }
    let xi = x as i64;
    let yi = y as i64;
    let mut ns: Vec<Rgb> = Vec::new();
    push_neighbor(&mut ns, img, xi - 1, yi - 1);
    push_neighbor(&mut ns, img, xi, yi - 1);
    push_neighbor(&mut ns, img, xi + 1, yi - 1);
    push_neighbor(&mut ns, img, xi - 1, yi);
    push_neighbor(&mut ns, img, xi + 1, yi);
    push_neighbor(&mut ns, img, xi - 1, yi + 1);
    push_neighbor(&mut ns, img, xi, yi + 1);
    push_neighbor(&mut ns, img, xi + 1, yi + 1);
    proof {
        assert(ns@ =~= neighbor_colors(*img, x as int, y as int));
    }
    ns
}

/// What the denoiser makes of one pixel, reading the original buffer.
fn denoise_pixel(img: &PixelBuffer, x: usize, y: usize) -> (q: Pixel)
    requires
        img.wf(),
        x < img.width,
        y < img.height,
    ensures
        q == spec_denoise_pixel(*img, x as int, y as int),
{
    let p = img.get_pixel_at(x, y);
    if p.a == 0 {
        return p;
    }
    let ns = collect_neighbors(img, x, y);
    if ns.len() == 0 {
        return p;
    }
    if contains_rgb(&ns, p.rgb()) {
        return p;
    }
    let w = vote_exec(&ns);
    Pixel { r: w.r, g: w.g, b: w.b, a: p.a }
}

/// Removes isolated pixels by majority vote over the 8-neighborhood. Fails
/// exactly on a malformed buffer; otherwise the output has the input's
/// dimensions and each pixel is the denoised image of the input's, all
/// neighbor lookups referencing the unmodified input.
pub fn denoise(img: &PixelBuffer) -> (r: Result<PixelBuffer, TransformError>)
    ensures
        r is Ok <==> img.wf(),
        r is Err ==> r == Err::<PixelBuffer, TransformError>(TransformError::MalformedBuffer),
        r is Ok ==> {
            let out = r->Ok_0;
            &&& out.wf()
            &&& out.width == img.width
            &&& out.height == img.height
            &&& forall|x: int, y: int|
                0 <= x < img.width && 0 <= y < img.height ==> out.spec_pixel_at(x, y)
                    == spec_denoise_pixel(*img, x, y)
        },
{
    if !img.is_well_formed() {
        return Err(TransformError::MalformedBuffer);
    }
    let w = img.width;
    let h = img.height;
    let mut data: Vec<u8> = Vec::new();
    let mut y: usize = 0;
    while y < h
        invariant
            img.wf(),
            w == img.width,
            h == img.height,
            y <= h,
            data@.len() == 4 * (y * w),
            forall|yy: int, xx: int|
                0 <= yy < y && 0 <= xx < w ==> seq_pixel(data@, yy * w + xx) == spec_denoise_pixel(
                    *img,
                    xx,
                    yy,
                ),
        decreases h - y,
    {
        let mut x: usize = 0;
        while x < w
            invariant
                img.wf(),
                w == img.width,
                h == img.height,
                y < h,
                x <= w,
                data@.len() == 4 * (y * w + x),
                forall|yy: int, xx: int|
                    0 <= yy < y && 0 <= xx < w ==> seq_pixel(data@, yy * w + xx)
                        == spec_denoise_pixel(*img, xx, yy),
                forall|xx: int|
                    0 <= xx < x ==> seq_pixel(data@, y * w + xx) == spec_denoise_pixel(
                        *img,
                        xx,
                        y as int,
                    ),
            decreases w - x,
        {
            let q = denoise_pixel(img, x, y);
            let ghost before = data@;
            proof {
                assert(y * w + x + 1 <= w * h) by (nonlinear_arith)
                    requires
                        x < w,
                        y < h,
                ;
                assert(w * h <= w * h * 4);
                assert(img.data.len() <= usize::MAX);
            }
            data.push(q.r);
            data.push(q.g);
            data.push(q.b);
            data.push(q.a);
            proof {
                assert(data@ =~= before + seq![q.r, q.g, q.b, q.a]);
                assert forall|yy: int, xx: int|
                    0 <= yy < y && 0 <= xx < w implies seq_pixel(data@, yy * w + xx)
                    == spec_denoise_pixel(*img, xx, yy) by {
                    assert(yy * w + xx < y * w + x) by (nonlinear_arith)
                        requires
                            0 <= yy < y,
                            0 <= xx < w,
                            0 <= x,
                    ;
                    assert(seq_pixel(data@, yy * w + xx) == seq_pixel(before, yy * w + xx));
                }
                assert forall|xx: int|
                    0 <= xx < x + 1 implies seq_pixel(data@, y * w + xx) == spec_denoise_pixel(
                    *img,
                    xx,
                    y as int,
                ) by {
                    if xx < x {
                        assert(seq_pixel(data@, y * w + xx) == seq_pixel(before, y * w + xx));
                    } else {
                        assert(seq_pixel(data@, y * w + x) == q);
                    }
                }
            }
            x += 1;
        }
        proof {
            assert((y + 1) * w == y * w + w) by (nonlinear_arith);
            assert forall|yy: int, xx: int|
                0 <= yy < y + 1 && 0 <= xx < w implies seq_pixel(data@, yy * w + xx)
                == spec_denoise_pixel(*img, xx, yy) by {
                if yy == y {
                    assert(seq_pixel(data@, y * w + xx) == spec_denoise_pixel(*img, xx, y as int));
                }
            }
        }
        y += 1;
    }
    let out = PixelBuffer { width: w, height: h, data };
    proof {
        assert(out.wf()) by {
            assert(h * w == w * h) by (nonlinear_arith);
        }
        assert forall|x: int, y2: int|
            0 <= x < img.width && 0 <= y2 < img.height implies out.spec_pixel_at(x, y2)
            == spec_denoise_pixel(*img, x, y2) by {
            assert(seq_pixel(out.data@, y2 * w + x) == spec_denoise_pixel(*img, x, y2));
        }
    }
    Ok(out)
}

} // verus!
