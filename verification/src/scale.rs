//! The scaling component: fits a binary mask into a target rectangle under
//! one of five policies. Resampling is done by the `image` crate's Lanczos
//! filter over a two-level carrier image: foreground pixels travel as ink
//! (zero), background as white, and only pixels that come back as solid ink
//! stay foreground.

use crate::choices::ScalingMode;
use crate::grid::BinaryMask;
use vstd::arithmetic::div_mod::{
    lemma_div_is_ordered, lemma_div_multiples_vanish, lemma_multiply_divide_le,
};
use vstd::prelude::*;

verus! {

/// Scaler for binary masks: fits a mask into a target region under a
/// chosen policy.
pub struct ImageScaler;

/// One side of the target region: the absolute coordinate difference,
/// floored at ten pixels.
pub open spec fn region_dim(a: int, b: int) -> int {
    let d = if a >= b {
        a - b
    } else {
        b - a
    };
    if d < 10 {
        10
    } else {
        d
    }
}

/// A mask as carrier samples for the resampler: foreground is ink (zero),
/// background is white.
pub open spec fn carrier_of(d: Seq<bool>) -> Seq<u16> {
    d.map_values(
        |b: bool|
            if b {
                0u16
            } else {
                255u16
            },
    )
}

/// Carrier samples back as a mask: only solid ink stays foreground.
pub open spec fn mask_of(d: Seq<u16>) -> Seq<bool> {
    d.map_values(|v: u16| v == 0)
}

/// What the `image` crate's Lanczos resampler returns for given samples and
/// shapes; a pure function of its arguments.
pub uninterp spec fn lanczos_resized(data: Seq<u16>, w: int, h: int, nw: int, nh: int) -> Seq<u16>;

/// Relies on `image::DynamicImage::resize_exact` with the Lanczos filter: a
/// deterministic resample whose output covers exactly the requested shape,
/// and which is a plain copy when the shape does not change.
#[verifier::external_body]
fn resize_lanczos(data: &Vec<u16>, w: u32, h: u32, nw: u32, nh: u32) -> (r: Vec<u16>)
    requires
        data@.len() == (w as int) * (h as int),
        1 <= w,
        1 <= h,
        1 <= nw,
        1 <= nh,
    ensures
        r@ == lanczos_resized(data@, w as int, h as int, nw as int, nh as int),
        r@.len() == (nw as int) * (nh as int),
        nw == w && nh == h ==> r@ == data@,
{
    let img = image::ImageBuffer::<image::Luma<u16>, Vec<u16>>::from_vec(w, h, data.clone())
        .expect("buffer covers the image");
    image::DynamicImage::ImageLuma16(img)
        .resize_exact(nw, nh, image::imageops::FilterType::Lanczos3)
        .to_luma16()
        .into_raw()
}

/// The resample shape of the Fit policy: the largest uniform scale that
/// keeps the mask inside the region, dimensions floored.
pub open spec fn fit_dims(sw: int, sh: int, rw: int, rh: int) -> (int, int) {
    if rw * sh <= rh * sw {
        (rw, sh * rw / sw)
    } else {
        (sw * rh / sh, rh)
    }
}

/// The resample shape of the Fill policy: the smallest uniform scale that
/// covers the region, dimensions floored, clamped to the resampler's range.
pub open spec fn fill_dims(sw: int, sh: int, rw: int, rh: int) -> (int, int) {
    let nw = if rw * sh >= rh * sw {
        rw
    } else {
        sw * rh / sh
    };
    let nh = if rw * sh >= rh * sw {
        sh * rw / sw
    } else {
        rh
    };
    (
        if nw > 0xFFFF_FFFF {
            0xFFFF_FFFF
        } else {
            nw
        },
        if nh > 0xFFFF_FFFF {
            0xFFFF_FFFF
        } else {
            nh
        },
    )
}

/// The content the Stretch policy owes: the resample of the whole mask to
/// the whole region.
pub open spec fn stretch_post(src: BinaryMask, rw: int, rh: int, out: BinaryMask) -> bool {
    out.spec_data() == mask_of(
        lanczos_resized(
            carrier_of(src.spec_data()),
            src.spec_width() as int,
            src.spec_height() as int,
            rw,
            rh,
        ),
    )
}

/// The content the Fit policy owes: the resample centred on a background
/// canvas.
pub open spec fn fit_post(src: BinaryMask, rw: int, rh: int, out: BinaryMask) -> bool {
    let sw = src.spec_width() as int;
    let sh = src.spec_height() as int;
    let dims = fit_dims(sw, sh, rw, rh);
    let nw = dims.0;
    let nh = dims.1;
    if nw <= 0 || nh <= 0 {
        forall|x: int, y: int| 0 <= x < rw && 0 <= y < rh ==> !out.fg(x, y)
    } else {
        let scaled = mask_of(lanczos_resized(carrier_of(src.spec_data()), sw, sh, nw, nh));
        let offx = (rw - nw) / 2;
        let offy = (rh - nh) / 2;
        forall|x: int, y: int|
            0 <= x < rw && 0 <= y < rh ==> out.fg(x, y) == (offx <= x < offx + nw && offy <= y
                < offy + nh && scaled[(y - offy) * nw + (x - offx)])
    }
}

/// The content the Fill policy owes: the centre crop of the resample.
pub open spec fn fill_post(src: BinaryMask, rw: int, rh: int, out: BinaryMask) -> bool {
    let sw = src.spec_width() as int;
    let sh = src.spec_height() as int;
    let dims = fill_dims(sw, sh, rw, rh);
    let nw = dims.0;
    let nh = dims.1;
    let scaled = mask_of(lanczos_resized(carrier_of(src.spec_data()), sw, sh, nw, nh));
    let cx = (nw - rw) / 2;
    let cy = (nh - rh) / 2;
    forall|x: int, y: int|
        0 <= x < rw && 0 <= y < rh ==> out.fg(x, y) == scaled[(cy + y) * nw + (cx + x)]
}

/// The content the Center policy owes: the mask at native size, centred,
/// clipped, padded with background.
pub open spec fn center_post(src: BinaryMask, rw: int, rh: int, out: BinaryMask) -> bool {
    let sw = src.spec_width() as int;
    let sh = src.spec_height() as int;
    let offx = if rw > sw {
        (rw - sw) / 2
    } else {
        0
    };
    let offy = if rh > sh {
        (rh - sh) / 2
    } else {
        0
    };
    forall|x: int, y: int|
        0 <= x < rw && 0 <= y < rh ==> out.fg(x, y) == (offx <= x < offx + sw && offy <= y < offy
            + sh && src.fg(x - offx, y - offy))
}

/// The content the Tile policy owes: the mask repeated over the region.
pub open spec fn tile_post(src: BinaryMask, rw: int, rh: int, out: BinaryMask) -> bool {
    let sw = src.spec_width() as int;
    let sh = src.spec_height() as int;
    forall|x: int, y: int|
        0 <= x < rw && 0 <= y < rh ==> out.fg(x, y) == src.fg(x % sw, y % sh)
}

/// What scaling returns: a mask of the region's shape, filled according to
/// the policy; all background when the source mask is empty in either
/// dimension.
pub open spec fn scale_post(
    src: BinaryMask,
    start_pos: (i32, i32),
    end_pos: (i32, i32),
    mode: ScalingMode,
    out: BinaryMask,
) -> bool {
    let rw = region_dim(end_pos.0 as int, start_pos.0 as int);
    let rh = region_dim(end_pos.1 as int, start_pos.1 as int);
    &&& out.wf()
    &&& out.spec_width() == rw
    &&& out.spec_height() == rh
    &&& if src.spec_width() == 0 || src.spec_height() == 0 {
        forall|x: int, y: int| 0 <= x < rw && 0 <= y < rh ==> !out.fg(x, y)
    } else {
        match mode {
            ScalingMode::Stretch => stretch_post(src, rw, rh, out),
            ScalingMode::Fit => fit_post(src, rw, rh, out),
            ScalingMode::Fill => fill_post(src, rw, rh, out),
            ScalingMode::Center => center_post(src, rw, rh, out),
            ScalingMode::Tile => tile_post(src, rw, rh, out),
        }
    }
}

/// A mask's pixels as carrier samples.
fn mask_to_carrier(m: &BinaryMask) -> (r: Vec<u16>)
    ensures
        r@ == carrier_of(m.spec_data()),
{
    let mut out: Vec<u16> = Vec::new();
    let mut i: usize = 0;
    let n = m.data.len();
    while i < n
        invariant
            n == m.spec_data().len(),
            0 <= i <= n,
            out@.len() == i,
            forall|j: int|
                0 <= j < i ==> (#[trigger] out@[j]) == (if m.spec_data()[j] {
                    0u16
                } else {
                    255u16
                }),
        decreases n - i,
    {
        let v: u16 = if m.data[i] {
            0
        } else {
            255
        };
        out.push(v);
        i += 1;
    }
    proof {
        assert(out@ =~= carrier_of(m.spec_data()));
    }
    out
}

/// One region side from two coordinates.
fn region_side(a: i32, b: i32) -> (r: usize)
    ensures
        r == region_dim(b as int, a as int),
        10 <= r < 0x1_0000_0000,
{
    let d64: i64 = b as i64 - a as i64;
    let d: u64 = if d64 >= 0 {
        d64 as u64
    } else {
        (-d64) as u64
    };
    let d = if d < 10 {
        10u64
    } else {
        d
    };
    d as usize
}

/// A background canvas of the given shape.
fn blank_canvas(rw: usize, rh: usize) -> (r: BinaryMask)
    requires
        rw < 0x1_0000_0000,
        rh < 0x1_0000_0000,
    ensures
        r.wf(),
        r.spec_width() == rw,
        r.spec_height() == rh,
        forall|x: int, y: int| 0 <= x < rw && 0 <= y < rh ==> !r.fg(x, y),
{
    let mut data: Vec<bool> = Vec::new();
    let mut y: usize = 0;
    while y < rh
        invariant
            0 <= y <= rh,
            data@.len() == (y as int) * (rw as int),
            forall|j: int| 0 <= j < data@.len() ==> !(#[trigger] data@[j]),
        decreases rh - y,
    {
        let mut x: usize = 0;
        while x < rw
            invariant
                0 <= x <= rw,
                0 <= y < rh,
                data@.len() == (y as int) * (rw as int) + (x as int),
                forall|j: int| 0 <= j < data@.len() ==> !(#[trigger] data@[j]),
            decreases rw - x,
        {
            proof {
                crate::grid::lemma_row_major_index(rw as int, rh as int, x as int, y as int);
            }
            data.push(false);
            x += 1;
        }
        proof {
            assert(((y + 1) as int) * (rw as int) == (y as int) * (rw as int) + (rw as int)) by (
            nonlinear_arith);
        }
        y += 1;
    }
    proof {
        assert((rh as int) * (rw as int) == (rw as int) * (rh as int)) by (nonlinear_arith);
    }
    let r = BinaryMask { width: rw, height: rh, data };
    proof {
        assert forall|x: int, y: int| 0 <= x < rw && 0 <= y < rh implies !r.fg(x, y) by {
            crate::grid::lemma_row_major_index(rw as int, rh as int, x, y);
        }
    }
    r
}


/// The pixel formula of the Fit policy: inside the centred window, the
/// resample; outside it, background.
pub open spec fn fit_formula(
    scaled: Seq<bool>,
    nw: int,
    nh: int,
    offx: int,
    offy: int,
    x: int,
    y: int,
) -> bool {
    offx <= x < offx + nw && offy <= y < offy + nh && scaled[(y - offy) * nw + (x - offx)]
}

/// The pixel formula of the Fill policy: the resample, read at a cropped
/// offset.
pub open spec fn fill_formula(scaled: Seq<bool>, nw: int, cx: int, cy: int, x: int, y: int) -> bool {
    scaled[(cy + y) * nw + (cx + x)]
}

/// The pixel formula of the Center policy: inside the centred window, the
/// source; outside it, background.
pub open spec fn center_formula(src: BinaryMask, offx: int, offy: int, x: int, y: int) -> bool {
    offx <= x < offx + src.spec_width() && offy <= y < offy + src.spec_height() && src.fg(
        x - offx,
        y - offy,
    )
}

/// The pixel formula of the Tile policy: the source, wrapped around.
pub open spec fn tile_formula(src: BinaryMask, x: int, y: int) -> bool {
    src.fg(x % (src.spec_width() as int), y % (src.spec_height() as int))
}

impl ImageScaler {
    /// Scales a mask to fit a region chosen by two corners, in either
    /// order, under the chosen policy. The region is at least ten pixels a
    /// side; an empty source mask yields an all-background region.
    pub fn scale_image_to_region(
        img: &BinaryMask,
        start_pos: (i32, i32),
        end_pos: (i32, i32),
        scaling_mode: ScalingMode,
    ) -> (r: BinaryMask)
        requires
            img.wf(),
            img.spec_width() < 0x1_0000_0000,
            img.spec_height() < 0x1_0000_0000,
        ensures
            scale_post(*img, start_pos, end_pos, scaling_mode, r),
    {
        let rw = region_side(start_pos.0, end_pos.0);
        let rh = region_side(start_pos.1, end_pos.1);
        let sw = img.width();
        let sh = img.height();
        if sw == 0 || sh == 0 {
            return blank_canvas(rw, rh);
        }
        match scaling_mode {
            ScalingMode::Stretch => Self::scale_stretch(img, rw, rh),
            ScalingMode::Fit => Self::scale_fit(img, rw, rh),
            ScalingMode::Fill => Self::scale_fill(img, rw, rh),
            ScalingMode::Center => Self::scale_center(img, rw, rh),
            ScalingMode::Tile => Self::scale_tile(img, rw, rh),
        }
    }

    /// The Stretch policy: resample the whole mask to the whole region.
    fn scale_stretch(img: &BinaryMask, rw: usize, rh: usize) -> (out: BinaryMask)
        requires
            img.wf(),
            1 <= img.spec_width() < 0x1_0000_0000,
            1 <= img.spec_height() < 0x1_0000_0000,
            10 <= rw < 0x1_0000_0000,
            10 <= rh < 0x1_0000_0000,
        ensures
            out.wf(),
            out.spec_width() == rw,
            out.spec_height() == rh,
            stretch_post(*img, rw as int, rh as int, out),
    {
        let carrier = mask_to_carrier(img);
        let res = resize_lanczos(
            &carrier,
            img.width() as u32,
            img.height() as u32,
            rw as u32,
            rh as u32,
        );
        let mut data: Vec<bool> = Vec::new();
        let n = res.len();
        let mut i: usize = 0;
        while i < n
            invariant
                n == res@.len(),
                0 <= i <= n,
                data@.len() == i,
                forall|j: int| 0 <= j < i ==> (#[trigger] data@[j]) == (res@[j] == 0),
            decreases n - i,
        {
            let fg = res[i] == 0;
            data.push(fg);
            i += 1;
        }
        proof {
            assert(data@ =~= mask_of(res@));
        }
        BinaryMask { width: rw, height: rh, data }
    }

    /// The Fit policy: uniform scale into the region, centred, padded.
    fn scale_fit(img: &BinaryMask, rw: usize, rh: usize) -> (out: BinaryMask)
        requires
            img.wf(),
            1 <= img.spec_width() < 0x1_0000_0000,
            1 <= img.spec_height() < 0x1_0000_0000,
            10 <= rw < 0x1_0000_0000,
            10 <= rh < 0x1_0000_0000,
        ensures
            out.wf(),
            out.spec_width() == rw,
            out.spec_height() == rh,
            fit_post(*img, rw as int, rh as int, out),
    {
        let sw = img.width();
        let sh = img.height();
        proof {
            assert((rw as int) * (sh as int) < 0x1_0000_0000_0000_0000 && (rh as int) * (
            sw as int) < 0x1_0000_0000_0000_0000 && (sh as int) * (rw as int)
                < 0x1_0000_0000_0000_0000 && (sw as int) * (rh as int) < 0x1_0000_0000_0000_0000)
                by (nonlinear_arith)
                requires
                    0 <= rw < 0x1_0000_0000,
                    0 <= rh < 0x1_0000_0000,
                    0 <= sw < 0x1_0000_0000,
                    0 <= sh < 0x1_0000_0000,
            ;
        }
        let a: u64 = (rw as u64) * (sh as u64);
        let b: u64 = (rh as u64) * (sw as u64);
        let nw64: u64;
        let nh64: u64;
        if a <= b {
            nw64 = rw as u64;
            nh64 = ((sh as u64) * (rw as u64)) / (sw as u64);
            proof {
                assert((sh as int) * (rw as int) <= (sw as int) * (rh as int)) by (nonlinear_arith)
                    requires
                        (rw as int) * (sh as int) <= (rh as int) * (sw as int),
                ;
                lemma_multiply_divide_le((sh as int) * (rw as int), sw as int, rh as int);
            }
        } else {
            nw64 = ((sw as u64) * (rh as u64)) / (sh as u64);
            nh64 = rh as u64;
            proof {
                assert((sw as int) * (rh as int) <= (sh as int) * (rw as int)) by (nonlinear_arith)
                    requires
                        (rh as int) * (sw as int) <= (rw as int) * (sh as int),
                ;
                lemma_multiply_divide_le((sw as int) * (rh as int), sh as int, rw as int);
            }
        }
        proof {
            assert(nw64 == fit_dims(sw as int, sh as int, rw as int, rh as int).0);
            assert(nh64 == fit_dims(sw as int, sh as int, rw as int, rh as int).1);
        }
        if nw64 == 0 || nh64 == 0 {
            return blank_canvas(rw, rh);
        }
        let nw = nw64 as usize;
        let nh = nh64 as usize;
        let carrier = mask_to_carrier(img);
        let res = resize_lanczos(&carrier, sw as u32, sh as u32, nw as u32, nh as u32);
        let rn = res.len();
        proof {
            assert(res@.len() == rn);
            assert((nw as int) * (nh as int) < 0x1_0000_0000_0000_0000) by (nonlinear_arith)
                requires
                    0 <= nw < 0x1_0000_0000,
                    0 <= nh < 0x1_0000_0000,
            ;
        }
        let offx = (rw - nw) / 2;
        let offy = (rh - nh) / 2;
        let ghost scaled = mask_of(res@);
        let ghost rwi = rw as int;
        let ghost target = Seq::new(
            ((rw as int) * (rh as int)) as nat,
            |i: int|
                fit_formula(
                    scaled,
                    nw as int,
                    nh as int,
                    offx as int,
                    offy as int,
                    i % rwi,
                    i / rwi,
                ),
        );
        let mut data: Vec<bool> = Vec::new();
        let mut y: usize = 0;
        while y < rh
            invariant
                1 <= nw <= rw < 0x1_0000_0000,
                1 <= nh <= rh < 0x1_0000_0000,
                offx == ((rw - nw) as int) / 2,
                offy == ((rh - nh) as int) / 2,
                offx + nw <= rw,
                offy + nh <= rh,
                res@.len() == (nw as int) * (nh as int),
                res@.len() == rn,
                (nw as int) * (nh as int) < 0x1_0000_0000_0000_0000,
                scaled == mask_of(res@),
                rwi == rw as int,
                target == Seq::new(
                    ((rw as int) * (rh as int)) as nat,
                    |i: int|
                        fit_formula(
                            scaled,
                            nw as int,
                            nh as int,
                            offx as int,
                            offy as int,
                            i % rwi,
                            i / rwi,
                        ),
                ),
                0 <= y <= rh,
                data@.len() == (y as int) * (rw as int),
                forall|i: int| 0 <= i < data@.len() ==> (#[trigger] data@[i]) == target[i],
            decreases rh - y,
        {
            let mut x: usize = 0;
            while x < rw
                invariant
                    1 <= nw <= rw < 0x1_0000_0000,
                    1 <= nh <= rh < 0x1_0000_0000,
                    offx == ((rw - nw) as int) / 2,
                    offy == ((rh - nh) as int) / 2,
                    offx + nw <= rw,
                    offy + nh <= rh,
                    res@.len() == (nw as int) * (nh as int),
                    res@.len() == rn,
                    (nw as int) * (nh as int) < 0x1_0000_0000_0000_0000,
                    scaled == mask_of(res@),
                    rwi == rw as int,
                    target == Seq::new(
                        ((rw as int) * (rh as int)) as nat,
                        |i: int|
                            fit_formula(
                                scaled,
                                nw as int,
                                nh as int,
                                offx as int,
                                offy as int,
                                i % rwi,
                                i / rwi,
                            ),
                    ),
                    0 <= y < rh,
                    0 <= x <= rw,
                    data@.len() == (y as int) * (rw as int) + (x as int),
                    forall|i: int| 0 <= i < data@.len() ==> (#[trigger] data@[i]) == target[i],
                decreases rw - x,
            {
                let fg: bool;
                if x >= offx && x < offx + nw && y >= offy && y < offy + nh {
                    proof {
                        crate::grid::lemma_row_major_index(
                            nw as int,
                            nh as int,
                            (x - offx) as int,
                            (y - offy) as int,
                        );
                    }
                    let idx64: u64 = ((y - offy) as u64) * (nw as u64) + ((x - offx) as u64);
                    fg = res[idx64 as usize] == 0;
                } else {
                    fg = false;
                }
                proof {
                    let i = data@.len() as int;
                    crate::grid::lemma_row_major_index(rw as int, rh as int, x as int, y as int);
                    vstd::arithmetic::div_mod::lemma_fundamental_div_mod_converse(
                        i,
                        rwi,
                        y as int,
                        x as int,
                    );
                    assert(target[i] == fit_formula(
                        scaled,
                        nw as int,
                        nh as int,
                        offx as int,
                        offy as int,
                        x as int,
                        y as int,
                    ));
                    assert(fg == fit_formula(
                        scaled,
                        nw as int,
                        nh as int,
                        offx as int,
                        offy as int,
                        x as int,
                        y as int,
                    ));
                }
                data.push(fg);
                x += 1;
            }
            proof {
                assert(((y + 1) as int) * (rw as int) == (y as int) * (rw as int) + (rw as int)) by (
                nonlinear_arith);
            }
            y += 1;
        }
        proof {
            assert(((rh as int) * (rw as int)) == (rw as int) * (rh as int)) by (nonlinear_arith);
        }
        let out = BinaryMask { width: rw, height: rh, data };
        proof {
            assert forall|x: int, y: int| 0 <= x < rw && 0 <= y < rh implies out.fg(x, y)
                == fit_formula(
                scaled,
                nw as int,
                nh as int,
                offx as int,
                offy as int,
                x,
                y,
            ) by {
                crate::grid::lemma_row_major_index(rw as int, rh as int, x, y);
                vstd::arithmetic::div_mod::lemma_fundamental_div_mod_converse(y * rwi + x, rwi, y, x);
                assert(out.fg(x, y) == target[y * rwi + x]);
            }
        }
        out
    }
}


impl ImageScaler {
    /// The Fill policy: uniform scale over the region, centre-cropped.
    fn scale_fill(img: &BinaryMask, rw: usize, rh: usize) -> (out: BinaryMask)
        requires
            img.wf(),
            1 <= img.spec_width() < 0x1_0000_0000,
            1 <= img.spec_height() < 0x1_0000_0000,
            10 <= rw < 0x1_0000_0000,
            10 <= rh < 0x1_0000_0000,
        ensures
            out.wf(),
            out.spec_width() == rw,
            out.spec_height() == rh,
            fill_post(*img, rw as int, rh as int, out),
    {
        let sw = img.width();
        let sh = img.height();
        proof {
            assert((rw as int) * (sh as int) < 0x1_0000_0000_0000_0000 && (rh as int) * (
            sw as int) < 0x1_0000_0000_0000_0000 && (sh as int) * (rw as int)
                < 0x1_0000_0000_0000_0000 && (sw as int) * (rh as int) < 0x1_0000_0000_0000_0000)
                by (nonlinear_arith)
                requires
                    0 <= rw < 0x1_0000_0000,
                    0 <= rh < 0x1_0000_0000,
                    0 <= sw < 0x1_0000_0000,
                    0 <= sh < 0x1_0000_0000,
            ;
        }
        let a: u64 = (rw as u64) * (sh as u64);
        let b: u64 = (rh as u64) * (sw as u64);
        let mut nw64: u64;
        let mut nh64: u64;
        if a >= b {
            nw64 = rw as u64;
            nh64 = ((sh as u64) * (rw as u64)) / (sw as u64);
            proof {
                assert((rh as int) * (sw as int) <= (sh as int) * (rw as int)) by (nonlinear_arith)
                    requires
                        (rh as int) * (sw as int) <= (rw as int) * (sh as int),
                ;
                lemma_div_is_ordered(
                    (rh as int) * (sw as int),
                    (sh as int) * (rw as int),
                    sw as int,
                );
                lemma_div_multiples_vanish(rh as int, sw as int);
                assert((rh as int) * (sw as int) == (sw as int) * (rh as int)) by (nonlinear_arith);
                assert(nh64 >= rh);
            }
        } else {
            nw64 = ((sw as u64) * (rh as u64)) / (sh as u64);
            nh64 = rh as u64;
            proof {
                assert((rw as int) * (sh as int) <= (sw as int) * (rh as int)) by (nonlinear_arith)
                    requires
                        (rw as int) * (sh as int) <= (rh as int) * (sw as int),
                ;
                lemma_div_is_ordered(
                    (rw as int) * (sh as int),
                    (sw as int) * (rh as int),
                    sh as int,
                );
                lemma_div_multiples_vanish(rw as int, sh as int);
                assert((rw as int) * (sh as int) == (sh as int) * (rw as int)) by (nonlinear_arith);
                assert(nw64 >= rw);
            }
        }
        let ghost dims = fill_dims(sw as int, sh as int, rw as int, rh as int);
        if nw64 > 0xFFFF_FFFF {
            nw64 = 0xFFFF_FFFF;
        }
        if nh64 > 0xFFFF_FFFF {
            nh64 = 0xFFFF_FFFF;
        }
        proof {
            assert(nw64 == dims.0);
            assert(nh64 == dims.1);
            assert(rw <= nw64 && rh <= nh64);
        }
        let nw = nw64 as usize;
        let nh = nh64 as usize;
        let carrier = mask_to_carrier(img);
        let res = resize_lanczos(&carrier, sw as u32, sh as u32, nw as u32, nh as u32);
        let rn = res.len();
        proof {
            assert(res@.len() == rn);
            assert((nw as int) * (nh as int) < 0x1_0000_0000_0000_0000) by (nonlinear_arith)
                requires
                    0 <= nw < 0x1_0000_0000,
                    0 <= nh < 0x1_0000_0000,
            ;
        }
        let cx = (nw - rw) / 2;
        let cy = (nh - rh) / 2;
        proof {
            assert(cx + rw <= nw && cy + rh <= nh);
        }
        let ghost scaled = mask_of(res@);
        let ghost rwi = rw as int;
        let ghost target = Seq::new(
            ((rw as int) * (rh as int)) as nat,
            |i: int| fill_formula(scaled, nw as int, cx as int, cy as int, i % rwi, i / rwi),
        );
        let mut data: Vec<bool> = Vec::new();
        let mut y: usize = 0;
        while y < rh
            invariant
                10 <= rw <= nw < 0x1_0000_0000,
                10 <= rh <= nh < 0x1_0000_0000,
                cx == ((nw - rw) as int) / 2,
                cy == ((nh - rh) as int) / 2,
                cx + rw <= nw,
                cy + rh <= nh,
                res@.len() == (nw as int) * (nh as int),
                res@.len() == rn,
                (nw as int) * (nh as int) < 0x1_0000_0000_0000_0000,
                scaled == mask_of(res@),
                rwi == rw as int,
                target == Seq::new(
                    ((rw as int) * (rh as int)) as nat,
                    |i: int|
                        fill_formula(scaled, nw as int, cx as int, cy as int, i % rwi, i / rwi),
                ),
                0 <= y <= rh,
                data@.len() == (y as int) * (rw as int),
                forall|i: int| 0 <= i < data@.len() ==> (#[trigger] data@[i]) == target[i],
            decreases rh - y,
        {
            let mut x: usize = 0;
            while x < rw
                invariant
                    10 <= rw <= nw < 0x1_0000_0000,
                    10 <= rh <= nh < 0x1_0000_0000,
                    cx == ((nw - rw) as int) / 2,
                    cy == ((nh - rh) as int) / 2,
                    cx + rw <= nw,
                    cy + rh <= nh,
                    res@.len() == (nw as int) * (nh as int),
                    res@.len() == rn,
                    (nw as int) * (nh as int) < 0x1_0000_0000_0000_0000,
                    scaled == mask_of(res@),
                    rwi == rw as int,
                    target == Seq::new(
                        ((rw as int) * (rh as int)) as nat,
                        |i: int|
                            fill_formula(scaled, nw as int, cx as int, cy as int, i % rwi, i / rwi),
                    ),
                    0 <= y < rh,
                    0 <= x <= rw,
                    data@.len() == (y as int) * (rw as int) + (x as int),
                    forall|i: int| 0 <= i < data@.len() ==> (#[trigger] data@[i]) == target[i],
                decreases rw - x,
            {
                proof {
                    crate::grid::lemma_row_major_index(
                        nw as int,
                        nh as int,
                        (cx + x) as int,
                        (cy + y) as int,
                    );
                }
                let idx64: u64 = ((cy + y) as u64) * (nw as u64) + ((cx + x) as u64);
                let fg = res[idx64 as usize] == 0;
                proof {
                    let i = data@.len() as int;
                    crate::grid::lemma_row_major_index(rw as int, rh as int, x as int, y as int);
                    vstd::arithmetic::div_mod::lemma_fundamental_div_mod_converse(
                        i,
                        rwi,
                        y as int,
                        x as int,
                    );
                    assert(target[i] == fill_formula(
                        scaled,
                        nw as int,
                        cx as int,
                        cy as int,
                        x as int,
                        y as int,
                    ));
                }
                data.push(fg);
                x += 1;
            }
            proof {
                assert(((y + 1) as int) * (rw as int) == (y as int) * (rw as int) + (rw as int)) by (
                nonlinear_arith);
            }
            y += 1;
        }
        proof {
            assert(((rh as int) * (rw as int)) == (rw as int) * (rh as int)) by (nonlinear_arith);
        }
        let out = BinaryMask { width: rw, height: rh, data };
        proof {
            assert forall|x: int, y: int| 0 <= x < rw && 0 <= y < rh implies out.fg(x, y)
                == fill_formula(scaled, nw as int, cx as int, cy as int, x, y) by {
                crate::grid::lemma_row_major_index(rw as int, rh as int, x, y);
                vstd::arithmetic::div_mod::lemma_fundamental_div_mod_converse(
                    y * rwi + x,
                    rwi,
                    y,
                    x,
                );
                assert(out.fg(x, y) == target[y * rwi + x]);
            }
        }
        out
    }

    /// The Center policy: the mask at native size, centred, clipped,
    /// padded.
    fn scale_center(img: &BinaryMask, rw: usize, rh: usize) -> (out: BinaryMask)
        requires
            img.wf(),
            1 <= img.spec_width() < 0x1_0000_0000,
            1 <= img.spec_height() < 0x1_0000_0000,
            10 <= rw < 0x1_0000_0000,
            10 <= rh < 0x1_0000_0000,
        ensures
            out.wf(),
            out.spec_width() == rw,
            out.spec_height() == rh,
            center_post(*img, rw as int, rh as int, out),
    {
        let ghost g = *img;
        let sw = img.width();
        let sh = img.height();
        let offx: usize = if rw > sw {
            (rw - sw) / 2
        } else {
            0
        };
        let offy: usize = if rh > sh {
            (rh - sh) / 2
        } else {
            0
        };
        let ghost rwi = rw as int;
        let ghost target = Seq::new(
            ((rw as int) * (rh as int)) as nat,
            |i: int| center_formula(g, offx as int, offy as int, i % rwi, i / rwi),
        );
        let mut data: Vec<bool> = Vec::new();
        let mut y: usize = 0;
        while y < rh
            invariant
                img.wf(),
                g == *img,
                sw == img.spec_width(),
                sh == img.spec_height(),
                1 <= sw < 0x1_0000_0000,
                1 <= sh < 0x1_0000_0000,
                10 <= rw < 0x1_0000_0000,
                10 <= rh < 0x1_0000_0000,
                offx == (if rw > sw {
                    ((rw - sw) as int) / 2
                } else {
                    0int
                }),
                offy == (if rh > sh {
                    ((rh - sh) as int) / 2
                } else {
                    0int
                }),
                rwi == rw as int,
                target == Seq::new(
                    ((rw as int) * (rh as int)) as nat,
                    |i: int| center_formula(g, offx as int, offy as int, i % rwi, i / rwi),
                ),
                0 <= y <= rh,
                data@.len() == (y as int) * (rw as int),
                forall|i: int| 0 <= i < data@.len() ==> (#[trigger] data@[i]) == target[i],
            decreases rh - y,
        {
            let mut x: usize = 0;
            while x < rw
                invariant
                    img.wf(),
                    g == *img,
                    sw == img.spec_width(),
                    sh == img.spec_height(),
                    1 <= sw < 0x1_0000_0000,
                    1 <= sh < 0x1_0000_0000,
                    10 <= rw < 0x1_0000_0000,
                    10 <= rh < 0x1_0000_0000,
                    offx == (if rw > sw {
                        ((rw - sw) as int) / 2
                    } else {
                        0int
                    }),
                    offy == (if rh > sh {
                        ((rh - sh) as int) / 2
                    } else {
                        0int
                    }),
                    rwi == rw as int,
                    target == Seq::new(
                        ((rw as int) * (rh as int)) as nat,
                        |i: int| center_formula(g, offx as int, offy as int, i % rwi, i / rwi),
                    ),
                    0 <= y < rh,
                    0 <= x <= rw,
                    data@.len() == (y as int) * (rw as int) + (x as int),
                    forall|i: int| 0 <= i < data@.len() ==> (#[trigger] data@[i]) == target[i],
                decreases rw - x,
            {
                let fg: bool;
                if x >= offx && x - offx < sw && y >= offy && y - offy < sh {
                    fg = img.get(x - offx, y - offy);
                } else {
                    fg = false;
                }
                proof {
                    let i = data@.len() as int;
                    crate::grid::lemma_row_major_index(rw as int, rh as int, x as int, y as int);
                    vstd::arithmetic::div_mod::lemma_fundamental_div_mod_converse(
                        i,
                        rwi,
                        y as int,
                        x as int,
                    );
                    assert(target[i] == center_formula(
                        g,
                        offx as int,
                        offy as int,
                        x as int,
                        y as int,
                    ));
                }
                data.push(fg);
                x += 1;
            }
            proof {
                assert(((y + 1) as int) * (rw as int) == (y as int) * (rw as int) + (rw as int)) by (
                nonlinear_arith);
            }
            y += 1;
        }
        proof {
            assert(((rh as int) * (rw as int)) == (rw as int) * (rh as int)) by (nonlinear_arith);
        }
        let out = BinaryMask { width: rw, height: rh, data };
        proof {
            assert forall|x: int, y: int| 0 <= x < rw && 0 <= y < rh implies out.fg(x, y)
                == center_formula(g, offx as int, offy as int, x, y) by {
                crate::grid::lemma_row_major_index(rw as int, rh as int, x, y);
                vstd::arithmetic::div_mod::lemma_fundamental_div_mod_converse(
                    y * rwi + x,
                    rwi,
                    y,
                    x,
                );
                assert(out.fg(x, y) == target[y * rwi + x]);
            }
        }
        out
    }

    /// The Tile policy: the mask repeated over the region.
    fn scale_tile(img: &BinaryMask, rw: usize, rh: usize) -> (out: BinaryMask)
        requires
            img.wf(),
            1 <= img.spec_width() < 0x1_0000_0000,
            1 <= img.spec_height() < 0x1_0000_0000,
            10 <= rw < 0x1_0000_0000,
            10 <= rh < 0x1_0000_0000,
        ensures
            out.wf(),
            out.spec_width() == rw,
            out.spec_height() == rh,
            tile_post(*img, rw as int, rh as int, out),
    {
        let ghost g = *img;
        let sw = img.width();
        let sh = img.height();
        let ghost rwi = rw as int;
        let ghost target = Seq::new(
            ((rw as int) * (rh as int)) as nat,
            |i: int| tile_formula(g, i % rwi, i / rwi),
        );
        let mut data: Vec<bool> = Vec::new();
        let mut y: usize = 0;
        while y < rh
            invariant
                img.wf(),
                g == *img,
                sw == img.spec_width(),
                sh == img.spec_height(),
                1 <= sw < 0x1_0000_0000,
                1 <= sh < 0x1_0000_0000,
                10 <= rw < 0x1_0000_0000,
                10 <= rh < 0x1_0000_0000,
                rwi == rw as int,
                target == Seq::new(
                    ((rw as int) * (rh as int)) as nat,
                    |i: int| tile_formula(g, i % rwi, i / rwi),
                ),
                0 <= y <= rh,
                data@.len() == (y as int) * (rw as int),
                forall|i: int| 0 <= i < data@.len() ==> (#[trigger] data@[i]) == target[i],
            decreases rh - y,
        {
            let mut x: usize = 0;
            while x < rw
                invariant
                    img.wf(),
                    g == *img,
                    sw == img.spec_width(),
                    sh == img.spec_height(),
                    1 <= sw < 0x1_0000_0000,
                    1 <= sh < 0x1_0000_0000,
                    10 <= rw < 0x1_0000_0000,
                    10 <= rh < 0x1_0000_0000,
                    rwi == rw as int,
                    target == Seq::new(
                        ((rw as int) * (rh as int)) as nat,
                        |i: int| tile_formula(g, i % rwi, i / rwi),
                    ),
                    0 <= y < rh,
                    0 <= x <= rw,
                    data@.len() == (y as int) * (rw as int) + (x as int),
                    forall|i: int| 0 <= i < data@.len() ==> (#[trigger] data@[i]) == target[i],
                decreases rw - x,
            {
                let fg = img.get(x % sw, y % sh);
                proof {
                    let i = data@.len() as int;
                    crate::grid::lemma_row_major_index(rw as int, rh as int, x as int, y as int);
                    vstd::arithmetic::div_mod::lemma_fundamental_div_mod_converse(
                        i,
                        rwi,
                        y as int,
                        x as int,
                    );
                    assert(target[i] == tile_formula(g, x as int, y as int));
                }
                data.push(fg);
                x += 1;
            }
            proof {
                assert(((y + 1) as int) * (rw as int) == (y as int) * (rw as int) + (rw as int)) by (
                nonlinear_arith);
            }
            y += 1;
        }
        proof {
            assert(((rh as int) * (rw as int)) == (rw as int) * (rh as int)) by (nonlinear_arith);
        }
        let out = BinaryMask { width: rw, height: rh, data };
        proof {
            assert forall|x: int, y: int| 0 <= x < rw && 0 <= y < rh implies out.fg(x, y)
                == tile_formula(g, x, y) by {
                crate::grid::lemma_row_major_index(rw as int, rh as int, x, y);
                vstd::arithmetic::div_mod::lemma_fundamental_div_mod_converse(
                    y * rwi + x,
                    rwi,
                    y,
                    x,
                );
                assert(out.fg(x, y) == target[y * rwi + x]);
            }
        }
        out
    }
}

} // verus!
