//! Whole-buffer transforms: grayscale conversion under a luma policy and the
//! two anchor-quantizing "color reflection" transforms. Each consumes an RGBA
//! buffer and produces a fresh one of identical dimensions, applying a pure
//! per-pixel mapping; invalid parameters are rejected before processing.

use vstd::prelude::*;
use crate::buffer::{Pixel, PixelBuffer, TransformError};
use crate::luma::{GrayscaleMode, spec_apply_rule, spec_gray_pixel, spec_luma, luma, apply_rule};
use crate::quantize::{
    spec_quantize_average, spec_quantize_partial, spec_sort, sort_anchors, quantize_average,
    quantize_partial, lemma_sort_len, lemma_sort_sorted,
};

verus! {

/// The pixel at flat index `i` of a raw RGBA byte sequence.
pub open spec fn seq_pixel(d: Seq<u8>, i: int) -> Pixel {
    Pixel { r: d[4 * i], g: d[4 * i + 1], b: d[4 * i + 2], a: d[4 * i + 3] }
}

/// What the `Average` reflection makes of one pixel: quantize its luma over
/// the sorted anchors, under the shared transparency rule.
pub open spec fn spec_reflect_average_pixel(mode: GrayscaleMode, anchors: Seq<u8>, p: Pixel) -> Pixel {
    spec_apply_rule(p, spec_quantize_average(spec_luma(mode, p), spec_sort(anchors)))
}

/// What the `Partial` reflection makes of one pixel.
pub open spec fn spec_reflect_partial_pixel(mode: GrayscaleMode, anchors: Seq<u8>, p: Pixel) -> Pixel {
    spec_apply_rule(p, spec_quantize_partial(spec_luma(mode, p), spec_sort(anchors)))
}

/// Pixel-transform and codec entry points.
pub struct ImageProcessor;

impl ImageProcessor {
    /// Grayscale conversion under the chosen luma policy. Fails exactly on a
    /// malformed buffer; otherwise every pixel becomes its luma under the
    /// shared transparency rule.
    pub fn convert_to_grayscale_with_mode(img: &PixelBuffer, mode: GrayscaleMode) -> (r: Result<
        PixelBuffer,
        TransformError,
    >)
        ensures
            r is Ok <==> img.wf(),
            r is Err ==> r == Err::<PixelBuffer, TransformError>(TransformError::MalformedBuffer),
            r is Ok ==> {
                let out = r->Ok_0;
                &&& out.wf()
                &&& out.width == img.width
                &&& out.height == img.height
                &&& forall|i: int|
                    0 <= i < img.spec_pixel_count() ==> out.spec_pixel(i) == spec_gray_pixel(
                        mode,
                        img.spec_pixel(i),
                    )
            },
    {
        if !img.is_well_formed() {
            return Err(TransformError::MalformedBuffer);
        }
        let np = img.pixel_count();
        let mut data: Vec<u8> = Vec::new();
        let mut i: usize = 0;
        while i < np
            invariant
                img.wf(),
                np == img.spec_pixel_count(),
                i <= np,
                data@.len() == 4 * i,
                forall|k: int|
                    0 <= k < i ==> seq_pixel(data@, k) == spec_gray_pixel(
                        mode,
                        img.spec_pixel(k),
                    ),
            decreases np - i,
        {
            let p = img.get_pixel(i);
            let v = luma(p, mode);
            let q = apply_rule(p, v);
            let ghost before = data@;
            data.push(q.r);
            data.push(q.g);
            data.push(q.b);
            data.push(q.a);
            proof {
                assert(data@ =~= before + seq![q.r, q.g, q.b, q.a]);
                assert forall|k: int|
                    0 <= k < i + 1 implies seq_pixel(data@, k) == spec_gray_pixel(
                    mode,
                    img.spec_pixel(k),
                ) by {
                    if k < i {
                        assert(seq_pixel(data@, k) == seq_pixel(before, k));
                    } else {
                        assert(seq_pixel(data@, k) == q);
                    }
                }
            }
            i += 1;
        }
        let out = PixelBuffer { width: img.width, height: img.height, data };
        proof {
            assert(out.wf());
            assert forall|k: int|
                0 <= k < img.spec_pixel_count() implies out.spec_pixel(k) == spec_gray_pixel(
                mode,
                img.spec_pixel(k),
            ) by {
                assert(seq_pixel(out.data@, k) == spec_gray_pixel(mode, img.spec_pixel(k)));
            }
        }
        Ok(out)
    }

    /// Grayscale under the integer-weighted ITU-R BT.601 policy.
    pub fn convert_to_grayscale_custom(img: &PixelBuffer) -> (r: Result<PixelBuffer, TransformError>)
        ensures
            r is Ok <==> img.wf(),
            r is Err ==> r == Err::<PixelBuffer, TransformError>(TransformError::MalformedBuffer),
            r is Ok ==> {
                let out = r->Ok_0;
                &&& out.wf()
                &&& out.width == img.width
                &&& out.height == img.height
                &&& forall|i: int|
                    0 <= i < img.spec_pixel_count() ==> out.spec_pixel(i) == spec_gray_pixel(
                        GrayscaleMode::Default,
                        img.spec_pixel(i),
                    )
            },
    {
        Self::convert_to_grayscale_with_mode(img, GrayscaleMode::Default)
    }

    /// Grayscale under the channel-wise maximum policy.
    pub fn convert_to_grayscale_max(img: &PixelBuffer) -> (r: Result<PixelBuffer, TransformError>)
        ensures
            r is Ok <==> img.wf(),
            r is Err ==> r == Err::<PixelBuffer, TransformError>(TransformError::MalformedBuffer),
            r is Ok ==> {
                let out = r->Ok_0;
                &&& out.wf()
                &&& out.width == img.width
                &&& out.height == img.height
                &&& forall|i: int|
                    0 <= i < img.spec_pixel_count() ==> out.spec_pixel(i) == spec_gray_pixel(
                        GrayscaleMode::Max,
                        img.spec_pixel(i),
                    )
            },
    {
        Self::convert_to_grayscale_with_mode(img, GrayscaleMode::Max)
    }

    /// Grayscale under the channel-wise minimum policy.
    pub fn convert_to_grayscale_min(img: &PixelBuffer) -> (r: Result<PixelBuffer, TransformError>)
        ensures
            r is Ok <==> img.wf(),
            r is Err ==> r == Err::<PixelBuffer, TransformError>(TransformError::MalformedBuffer),
            r is Ok ==> {
                let out = r->Ok_0;
                &&& out.wf()
                &&& out.width == img.width
                &&& out.height == img.height
                &&& forall|i: int|
                    0 <= i < img.spec_pixel_count() ==> out.spec_pixel(i) == spec_gray_pixel(
                        GrayscaleMode::Min,
                        img.spec_pixel(i),
                    )
            },
    {
        Self::convert_to_grayscale_with_mode(img, GrayscaleMode::Min)
    }

    /// The `Average` color reflection: derive each pixel's luma under the
    /// chosen policy and quantize it over the anchors (sorted ascending
    /// before use). Rejects an anchor count outside 1..=10, then a malformed
    /// buffer, before touching any pixel.
    pub fn apply_color_reflection_with_mode(
        img: &PixelBuffer,
        slider_values: &Vec<u8>,
        mode: GrayscaleMode,
    ) -> (r: Result<PixelBuffer, TransformError>)
        ensures
            r is Ok <==> (img.wf() && 1 <= slider_values@.len() <= 10),
            !(1 <= slider_values@.len() <= 10) ==> r == Err::<PixelBuffer, TransformError>(
                TransformError::InvalidAnchorCount,
            ),
            1 <= slider_values@.len() <= 10 && !img.wf() ==> r == Err::<
                PixelBuffer,
                TransformError,
            >(TransformError::MalformedBuffer),
            r is Ok ==> {
                let out = r->Ok_0;
                &&& out.wf()
                &&& out.width == img.width
                &&& out.height == img.height
                &&& forall|i: int|
                    0 <= i < img.spec_pixel_count() ==> out.spec_pixel(i)
                        == spec_reflect_average_pixel(mode, slider_values@, img.spec_pixel(i))
            },
    {
        if slider_values.len() < 1 || slider_values.len() > 10 {
            return Err(TransformError::InvalidAnchorCount);
        }
        if !img.is_well_formed() {
            return Err(TransformError::MalformedBuffer);
        }
        let anchors = sort_anchors(slider_values);
        proof {
            lemma_sort_len(slider_values@);
            lemma_sort_sorted(slider_values@);
        }
        let np = img.pixel_count();
        let mut data: Vec<u8> = Vec::new();
        let mut i: usize = 0;
        while i < np
            invariant
                img.wf(),
                np == img.spec_pixel_count(),
                i <= np,
                anchors@ == spec_sort(slider_values@),
                1 <= anchors@.len() <= 10,
                crate::quantize::sorted(anchors@),
                data@.len() == 4 * i,
                forall|k: int|
                    0 <= k < i ==> seq_pixel(data@, k) == spec_reflect_average_pixel(
                        mode,
                        slider_values@,
                        img.spec_pixel(k),
                    ),
            decreases np - i,
        {
            let p = img.get_pixel(i);
            let v = luma(p, mode);
            let s = quantize_average(v, &anchors);
            let q = apply_rule(p, s);
            let ghost before = data@;
            data.push(q.r);
            data.push(q.g);
            data.push(q.b);
            data.push(q.a);
            proof {
                assert(data@ =~= before + seq![q.r, q.g, q.b, q.a]);
                assert forall|k: int|
                    0 <= k < i + 1 implies seq_pixel(data@, k) == spec_reflect_average_pixel(
                    mode,
                    slider_values@,
                    img.spec_pixel(k),
                ) by {
                    if k < i {
                        assert(seq_pixel(data@, k) == seq_pixel(before, k));
                    } else {
                        assert(seq_pixel(data@, k) == q);
                    }
                }
            }
            i += 1;
        }
        let out = PixelBuffer { width: img.width, height: img.height, data };
        proof {
            assert(out.wf());
            assert forall|k: int|
                0 <= k < img.spec_pixel_count() implies out.spec_pixel(k)
                == spec_reflect_average_pixel(mode, slider_values@, img.spec_pixel(k)) by {
                assert(seq_pixel(out.data@, k) == spec_reflect_average_pixel(
                    mode,
                    slider_values@,
                    img.spec_pixel(k),
                ));
            }
        }
        Ok(out)
    }

    /// The `Partial` color reflection: as the `Average` one, but through the
    /// fixed posterization ladder.
    pub fn apply_color_reflection_partial_with_mode(
        img: &PixelBuffer,
        slider_values: &Vec<u8>,
        mode: GrayscaleMode,
    ) -> (r: Result<PixelBuffer, TransformError>)
        ensures
            r is Ok <==> (img.wf() && 1 <= slider_values@.len() <= 10),
            !(1 <= slider_values@.len() <= 10) ==> r == Err::<PixelBuffer, TransformError>(
                TransformError::InvalidAnchorCount,
            ),
            1 <= slider_values@.len() <= 10 && !img.wf() ==> r == Err::<
                PixelBuffer,
                TransformError,
            >(TransformError::MalformedBuffer),
            r is Ok ==> {
                let out = r->Ok_0;
                &&& out.wf()
                &&& out.width == img.width
                &&& out.height == img.height
                &&& forall|i: int|
                    0 <= i < img.spec_pixel_count() ==> out.spec_pixel(i)
                        == spec_reflect_partial_pixel(mode, slider_values@, img.spec_pixel(i))
            },
    {
        if slider_values.len() < 1 || slider_values.len() > 10 {
            return Err(TransformError::InvalidAnchorCount);
        }
        if !img.is_well_formed() {
            return Err(TransformError::MalformedBuffer);
        }
        let anchors = sort_anchors(slider_values);
        proof {
            lemma_sort_len(slider_values@);
            lemma_sort_sorted(slider_values@);
        }
        let np = img.pixel_count();
        let mut data: Vec<u8> = Vec::new();
        let mut i: usize = 0;
        while i < np
            invariant
                img.wf(),
                np == img.spec_pixel_count(),
                i <= np,
                anchors@ == spec_sort(slider_values@),
                1 <= anchors@.len() <= 10,
                crate::quantize::sorted(anchors@),
                data@.len() == 4 * i,
                forall|k: int|
                    0 <= k < i ==> seq_pixel(data@, k) == spec_reflect_partial_pixel(
                        mode,
                        slider_values@,
                        img.spec_pixel(k),
                    ),
            decreases np - i,
        {
            let p = img.get_pixel(i);
            let v = luma(p, mode);
            let s = quantize_partial(v, &anchors);
            let q = apply_rule(p, s);
            let ghost before = data@;
            data.push(q.r);
            data.push(q.g);
            data.push(q.b);
            data.push(q.a);
            proof {
                assert(data@ =~= before + seq![q.r, q.g, q.b, q.a]);
                assert forall|k: int|
                    0 <= k < i + 1 implies seq_pixel(data@, k) == spec_reflect_partial_pixel(
                    mode,
                    slider_values@,
                    img.spec_pixel(k),
                ) by {
                    if k < i {
                        assert(seq_pixel(data@, k) == seq_pixel(before, k));
                    } else {
                        assert(seq_pixel(data@, k) == q);
                    }
                }
            }
            i += 1;
        }
        let out = PixelBuffer { width: img.width, height: img.height, data };
        proof {
            assert(out.wf());
            assert forall|k: int|
                0 <= k < img.spec_pixel_count() implies out.spec_pixel(k)
                == spec_reflect_partial_pixel(mode, slider_values@, img.spec_pixel(k)) by {
                assert(seq_pixel(out.data@, k) == spec_reflect_partial_pixel(
                    mode,
                    slider_values@,
                    img.spec_pixel(k),
                ));
            }
        }
        Ok(out)
    }

    /// Removes isolated pixels by majority vote over the 8-neighborhood,
    /// reading only the original buffer.
    pub fn clean_image(img: &PixelBuffer) -> (r: Result<PixelBuffer, TransformError>)
        ensures
            r is Ok <==> img.wf(),
            r is Err ==> r == Err::<PixelBuffer, TransformError>(TransformError::MalformedBuffer),
            r is Ok ==> {
                let out = r->Ok_0;
                &&& out.wf()
                &&& out.width == img.width
                &&& out.height == img.height
                &&& forall|x: int, y: int|
                    0 <= x < img.width && 0 <= y < img.height ==> out.spec_pixel_at(x, y)
                        == crate::denoise::spec_denoise_pixel(*img, x, y)
            },
    {
        crate::denoise::denoise(img)
    }
}

/// Transparency rule, holding of every per-pixel transform: a fully
/// transparent input pixel comes out exactly (0, 0, 0, 0), and any other
/// input pixel comes out fully opaque, under every luma policy and every
/// anchor set.
pub proof fn lemma_transparency_rule(mode: GrayscaleMode, anchors: Seq<u8>, p: Pixel)
    ensures
        p.a == 0 ==> spec_gray_pixel(mode, p) == (Pixel { r: 0, g: 0, b: 0, a: 0 }),
        p.a == 0 ==> spec_reflect_average_pixel(mode, anchors, p) == (Pixel {
            r: 0,
            g: 0,
            b: 0,
            a: 0,
        }),
        p.a == 0 ==> spec_reflect_partial_pixel(mode, anchors, p) == (Pixel {
            r: 0,
            g: 0,
            b: 0,
            a: 0,
        }),
        p.a != 0 ==> spec_gray_pixel(mode, p).a == 255,
        p.a != 0 ==> spec_reflect_average_pixel(mode, anchors, p).a == 255,
        p.a != 0 ==> spec_reflect_partial_pixel(mode, anchors, p).a == 255,
{
}

} // verus!
