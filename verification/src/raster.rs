//! From decoded blocks to pixels: finding a component's sample for a pixel,
//! which replicates the samples of subsampled components, and converting
//! luminance and colour differences to red, green and blue.
use crate::error::ErrorKind;
use crate::frame::{FrameHeader, FrameSpec};
use crate::image::{Image, ImageView};
use crate::scan::{blocks_before, lemma_blocks_before_step, lemma_ceil_div, lemma_geometry_bounds, Geometry};
use vstd::arithmetic::div_mod::{
    lemma_fundamental_div_mod_converse,
    lemma_mod_bound,
    lemma_multiply_divide_lt,
};
use vstd::prelude::*;

verus! {

/// A value kept within the range of a sample.
pub open spec fn clamp_sample(v: int) -> u8 {
    if v < 0 {
        0
    } else if v > 255 {
        255
    } else {
        v as u8
    }
}

/// Red from luminance and the red colour difference: Y + 1.402 (Cr − 128),
/// in 16-bit fixed point, rounded to nearest.
pub open spec fn red(y: u8, cr: u8) -> u8 {
    clamp_sample(y + (91881 * (cr - 128) + 32768) / 65536)
}

/// Green from luminance and both colour differences:
/// Y − 0.344136 (Cb − 128) − 0.714136 (Cr − 128), in 16-bit fixed point,
/// rounded to nearest.
pub open spec fn green(y: u8, cb: u8, cr: u8) -> u8 {
    clamp_sample(y + (32768 - 22554 * (cb - 128) - 46802 * (cr - 128)) / 65536)
}

/// Blue from luminance and the blue colour difference: Y + 1.772 (Cb − 128),
/// in 16-bit fixed point, rounded to nearest.
pub open spec fn blue(y: u8, cb: u8) -> u8 {
    clamp_sample(y + (116130 * (cb - 128) + 32768) / 65536)
}

/// Converts one pixel from luminance and colour differences to red, green
/// and blue.
pub fn ycbcr_to_rgb(y: u8, cb: u8, cr: u8) -> (rgb: (u8, u8, u8))
    ensures
        rgb.0 == red(y, cr),
        rgb.1 == green(y, cb, cr),
        rgb.2 == blue(y, cb),
{
    let luma = y as i32;
    let db = cb as i32 - 128;
    let dr = cr as i32 - 128;
    let bias: i32 = 256 * 65536;
    let r = luma + (91881 * dr + 32768 + bias) / 65536 - 256;
    let g = luma + (32768 - 22554 * db - 46802 * dr + bias) / 65536 - 256;
    let b = luma + (116130 * db + 32768 + bias) / 65536 - 256;
    (clamp(r), clamp(g), clamp(b))
}

/// Keeps a value within the range of a sample.
fn clamp(v: i32) -> (r: u8)
    ensures
        r == clamp_sample(v as int),
{
    if v < 0 {
        0
    } else if v > 255 {
        255
    } else {
        v as u8
    }
}

/// A pixel without colour difference keeps its luminance in all three
/// channels.
pub proof fn lemma_grey_is_kept(y: u8)
    ensures
        red(y, 128) == y,
        green(y, 128, 128) == y,
        blue(y, 128) == y,
{
}

/// The coordinate in a component's plane that serves pixel coordinate `x`:
/// the plane has `factor` samples where the image has `largest` pixels, and
/// each sample is repeated to fill the gap.
pub open spec fn plane_coordinate(x: int, factor: int, largest: int) -> int {
    x * factor / largest
}

/// The number, in scan order, of the block that holds the sample at column
/// `sx`, row `sy` of the plane of component `ci`. Blocks come one minimum
/// coded unit after the other, row by row; within a unit one component
/// after the other; within a component row by row.
pub open spec fn block_index(frame: FrameSpec, ci: int, sx: int, sy: int) -> int {
    let c = frame.components[ci];
    let unit = (sy / 8 / (c.v_factor as int)) * frame.mcu_cols() + sx / 8 / (c.h_factor as int);
    let within = ((sy / 8) % (c.v_factor as int)) * c.h_factor + (sx / 8) % (c.h_factor as int);
    unit * frame.blocks_per_mcu() + blocks_before(frame.components, ci) + within
}

/// The sample of component `ci` for the pixel at column `x`, row `y`, out
/// of the samples of all blocks in scan order.
pub open spec fn component_sample(frame: FrameSpec, samples: Seq<u8>, ci: int, x: int, y: int) -> u8 {
    let c = frame.components[ci];
    let sx = plane_coordinate(x, c.h_factor as int, frame.h_max());
    let sy = plane_coordinate(y, c.v_factor as int, frame.v_max());
    samples[64 * block_index(frame, ci, sx, sy) + 8 * (sy % 8) + sx % 8]
}

/// Channel `c` of the pixel at column `x`, row `y`. A frame of three
/// components is taken as luminance and two colour differences and comes
/// out as red, green and blue; any other frame keeps its components as they
/// are, one channel each.
pub open spec fn pixel_channel(frame: FrameSpec, samples: Seq<u8>, x: int, y: int, c: int) -> u8 {
    if frame.components.len() == 3 {
        let luma = component_sample(frame, samples, 0, x, y);
        let cb = component_sample(frame, samples, 1, x, y);
        let cr = component_sample(frame, samples, 2, x, y);
        if c == 0 {
            red(luma, cr)
        } else if c == 1 {
            green(luma, cb, cr)
        } else {
            blue(luma, cb)
        }
    } else {
        component_sample(frame, samples, c, x, y)
    }
}

/// The image that the samples of a scan make: as wide and high as the frame
/// says, one channel per component, row by row.
pub open spec fn assemble_spec(frame: FrameSpec, samples: Seq<u8>) -> ImageView {
    let n = frame.components.len() as int;
    let w = frame.width as int;
    ImageView {
        width: frame.width,
        height: frame.height,
        channels: frame.components.len(),
        samples: Seq::new(
            frame.width * frame.height * frame.components.len(),
            |i: int| pixel_channel(frame, samples, (i / n) % w, (i / n) / w, i % n),
        ),
    }
}

/// The image, unless it has more samples than the machine can address.
pub open spec fn assemble_result(frame: FrameSpec, samples: Seq<u8>) -> Result<ImageView, ErrorKind> {
    if frame.width * frame.height * frame.components.len() > usize::MAX {
        Err(ErrorKind::UnsupportedEncoding)
    } else {
        Ok(assemble_spec(frame, samples))
    }
}

/// Samples are replicated: a component with the largest sampling factor
/// has a sample of its own for every pixel, and one whose factor goes
/// `ratio` times into the largest serves `ratio` neighbouring pixels with
/// each sample.
pub proof fn lemma_replication(x: int, factor: int, ratio: int)
    requires
        0 <= x,
        1 <= factor,
        1 <= ratio,
    ensures
        plane_coordinate(x, factor, factor * ratio) == x / ratio,
        plane_coordinate(x, factor, factor) == x,
{
    let q = x / ratio;
    let r = x % ratio;
    vstd::arithmetic::div_mod::lemma_fundamental_div_mod(x, ratio);
    lemma_mod_bound(x, ratio);
    assert(x * factor == q * (factor * ratio) + r * factor) by (nonlinear_arith)
        requires
            x == ratio * q + r,
    ;
    assert(0 <= r * factor < factor * ratio) by (nonlinear_arith)
        requires
            0 <= r < ratio,
            1 <= factor,
    ;
    lemma_fundamental_div_mod_converse(x * factor, factor * ratio, q, r * factor);
    assert(x * factor == x * factor + 0);
    lemma_fundamental_div_mod_converse(x * factor, factor, x, 0);
}

/// A pixel coordinate inside the image maps into the component's plane:
/// into one of the units, one of the component's blocks there, and one of
/// the block's eight rows or columns.
pub proof fn lemma_plane_coordinate(x: int, extent: int, factor: int, largest: int)
    requires
        0 <= x < extent,
        1 <= factor <= largest <= 4,
    ensures
        ({
            let units = (extent + 8 * largest - 1) / (8 * largest);
            let s = plane_coordinate(x, factor, largest);
            &&& 0 <= s <= x
            &&& 0 <= s / 8 / factor < units
            &&& 0 <= (s / 8) % factor < factor
            &&& 0 <= s % 8 < 8
        }),
{
    let units = (extent + 8 * largest - 1) / (8 * largest);
    let s = plane_coordinate(x, factor, largest);
    lemma_ceil_div(extent, 8 * largest);
    assert(units * (8 * largest) >= extent);
    assert(x * factor < largest * (units * 8 * factor)) by (nonlinear_arith)
        requires
            0 <= x < units * (8 * largest),
            1 <= factor,
            1 <= largest,
    ;
    assert(0 <= x * factor <= x * largest) by (nonlinear_arith)
        requires
            0 <= x,
            1 <= factor <= largest,
    ;
    lemma_multiply_divide_lt(x * factor, largest, units * 8 * factor);
    vstd::arithmetic::div_mod::lemma_div_pos_is_pos(x * factor, largest);
    if s > x {
        assert(largest * s > x * largest) by (nonlinear_arith)
            requires
                s > x,
                largest >= 1,
        ;
        vstd::arithmetic::div_mod::lemma_fundamental_div_mod(x * factor, largest);
        lemma_mod_bound(x * factor, largest);
    }
    assert(units * 8 * factor == 8 * (units * factor)) by (nonlinear_arith);
    assert(s / 8 < units * factor);
    assert(units * factor == factor * units) by (nonlinear_arith);
    lemma_multiply_divide_lt(s / 8, factor, units);
    vstd::arithmetic::div_mod::lemma_div_pos_is_pos(s / 8, factor);
    lemma_mod_bound(s / 8, factor);
}

/// The block that serves a pixel is one of the blocks of the scan.
pub proof fn lemma_block_index_bound(frame: FrameSpec, ci: int, x: int, y: int)
    requires
        frame.wf(),
        0 <= ci < frame.components.len(),
        0 <= x < frame.width,
        0 <= y < frame.height,
    ensures
        ({
            let c = frame.components[ci];
            let sx = plane_coordinate(x, c.h_factor as int, frame.h_max());
            let sy = plane_coordinate(y, c.v_factor as int, frame.v_max());
            &&& 0 <= block_index(frame, ci, sx, sy) < frame.block_count()
            &&& 0 <= 64 * block_index(frame, ci, sx, sy) + 8 * (sy % 8) + sx % 8 < 64
                * frame.block_count()
        }),
{
    let c = frame.components[ci];
    let n = frame.components.len() as int;
    lemma_geometry_bounds(frame.components, n);
    lemma_geometry_bounds(frame.components, ci);
    lemma_blocks_before_step(frame.components, ci, n);
    assert(c.wf());
    let h = c.h_factor as int;
    let v = c.v_factor as int;
    let sx = plane_coordinate(x, h, frame.h_max());
    let sy = plane_coordinate(y, v, frame.v_max());
    lemma_plane_coordinate(x, frame.width as int, h, frame.h_max());
    lemma_plane_coordinate(y, frame.height as int, v, frame.v_max());
    let cols = frame.mcu_cols();
    let rows = frame.mcu_rows();
    let per = frame.blocks_per_mcu();
    let mx = sx / 8 / h;
    let my = sy / 8 / v;
    let unit = my * cols + mx;
    let within = ((sy / 8) % v) * h + (sx / 8) % h;
    crate::image::lemma_index_in_bounds(cols, rows, 1, mx, my, 0);
    assert(0 <= within < h * v) by (nonlinear_arith)
        requires
            0 <= (sy / 8) % v < v,
            0 <= (sx / 8) % h < h,
            within == ((sy / 8) % v) * h + (sx / 8) % h,
    ;
    let inside = blocks_before(frame.components, ci) + within;
    assert(0 <= inside < per);
    assert(0 <= unit * per && unit * per + per <= cols * rows * per) by (nonlinear_arith)
        requires
            0 <= unit < cols * rows,
            0 < per,
    ;
}

/// The sample of component `ci` for the pixel at column `x`, row `y`.
fn sample_at(
    frame: &FrameHeader,
    geometry: &Geometry,
    samples: &Vec<u8>,
    ci: usize,
    before: u8,
    x: usize,
    y: usize,
) -> (s: u8)
    requires
        geometry.matches_frame(frame@),
        samples@.len() == 64 * frame@.block_count(),
        ci < frame@.components.len(),
        before == blocks_before(frame@.components, ci as int),
        x < frame@.width,
        y < frame@.height,
    ensures
        s == component_sample(frame@, samples@, ci as int, x as int, y as int),
{
    let c = frame.components()[ci];
    let n = samples.len();
    proof {
        assert(c.wf());
        lemma_geometry_bounds(frame@.components, frame@.components.len() as int);
        lemma_block_index_bound(frame@, ci as int, x as int, y as int);
        lemma_plane_coordinate(x as int, frame@.width as int, c.h_factor as int, frame@.h_max());
        lemma_plane_coordinate(y as int, frame@.height as int, c.v_factor as int, frame@.v_max());
        assert(x * c.h_factor <= 4 * 0xFFFF) by (nonlinear_arith)
            requires
                x <= 0xFFFF,
                c.h_factor <= 4,
        ;
        assert(y * c.v_factor <= 4 * 0xFFFF) by (nonlinear_arith)
            requires
                y <= 0xFFFF,
                c.v_factor <= 4,
        ;
    }
    let h = c.h_factor as usize;
    let v = c.v_factor as usize;
    let sx = x * h / geometry.h_max as usize;
    let sy = y * v / geometry.v_max as usize;
    let mx = sx / 8 / h;
    let my = sy / 8 / v;
    let cols = geometry.mcu_cols as usize;
    let per = geometry.blocks_per_mcu as usize;
    proof {
        let rows = frame@.mcu_rows();
        crate::image::lemma_index_in_bounds(cols as int, rows, 1, mx as int, my as int, 0);
        assert(0 <= ((sy / 8) % v) * h < v * h <= 16) by (nonlinear_arith)
            requires
                0 <= (sy / 8) % v < v,
                1 <= h <= 4,
                v <= 4,
        ;
        let unit = my * cols + mx;
        assert(0 <= unit * per && unit * per + per <= cols * rows * per) by (nonlinear_arith)
            requires
                0 <= unit < cols * rows,
                0 < per,
        ;
        assert(cols * rows <= 0xFFFF * 0xFFFF) by (nonlinear_arith)
            requires
                1 <= cols <= 0xFFFF,
                1 <= rows <= 0xFFFF,
        ;
    }
    let unit = my * cols + mx;
    let within = ((sy / 8) % v) * h + (sx / 8) % h;
    let block = unit * per + before as usize + within;
    samples[64 * block + 8 * (sy % 8) + sx % 8]
}

/// The channels of the pixel at column `x`, row `y`.
pub open spec fn pixel_spec(frame: FrameSpec, samples: Seq<u8>, x: int, y: int) -> Seq<u8> {
    Seq::new(frame.components.len(), |c: int| pixel_channel(frame, samples, x, y, c))
}

/// Puts the channels of the pixel at column `x`, row `y` behind the pixels
/// already there.
fn push_pixel(
    frame: &FrameHeader,
    geometry: &Geometry,
    samples: &Vec<u8>,
    before: &[u8; 4],
    x: usize,
    y: usize,
    out: &mut Vec<u8>,
)
    requires
        geometry.matches_frame(frame@),
        samples@.len() == 64 * frame@.block_count(),
        forall|i: int|
            0 <= i < frame@.components.len() ==> #[trigger] before@[i] == blocks_before(
                frame@.components,
                i,
            ),
        x < frame@.width,
        y < frame@.height,
    ensures
        final(out)@ == old(out)@ + pixel_spec(frame@, samples@, x as int, y as int),
{
    let n = frame.components().len();
    if n == 3 {
        let luma = sample_at(frame, geometry, samples, 0, before[0], x, y);
        let cb = sample_at(frame, geometry, samples, 1, before[1], x, y);
        let cr = sample_at(frame, geometry, samples, 2, before[2], x, y);
        let (r, g, b) = ycbcr_to_rgb(luma, cb, cr);
        out.push(r);
        out.push(g);
        out.push(b);
        proof {
            let pixel = pixel_spec(frame@, samples@, x as int, y as int);
            assert(pixel[0] == r && pixel[1] == g && pixel[2] == b);
            assert(out@ =~= old(out)@ + pixel);
        }
    } else {
        let ghost pixel = pixel_spec(frame@, samples@, x as int, y as int);
        let mut c: usize = 0;
        while c < n
            invariant
                c <= n,
                n == frame@.components.len(),
                n != 3,
                n <= 4,
                geometry.matches_frame(frame@),
                samples@.len() == 64 * frame@.block_count(),
                forall|i: int|
                    0 <= i < frame@.components.len() ==> #[trigger] before@[i] == blocks_before(
                        frame@.components,
                        i,
                    ),
                x < frame@.width,
                y < frame@.height,
                pixel == pixel_spec(frame@, samples@, x as int, y as int),
                out@ == old(out)@ + pixel.take(c as int),
            decreases n - c,
        {
            let s = sample_at(frame, geometry, samples, c, before[c], x, y);
            out.push(s);
            proof {
                assert(pixel[c as int] == s);
                assert(pixel.take(c + 1) =~= pixel.take(c as int).push(s));
                assert(old(out)@ + pixel.take(c + 1) =~= (old(out)@ + pixel.take(c as int)).push(s));
            }
            c += 1;
        }
        proof {
            assert(pixel.take(n as int) =~= pixel);
        }
    }
}

/// The place of a sample in a raster of `w` columns and `n` channels tells
/// its column, its row and its channel.
pub proof fn lemma_raster_index(w: int, n: int, x: int, y: int, c: int)
    requires
        0 <= x < w,
        0 <= y,
        0 <= c < n,
    ensures
        ({
            let i = (y * w + x) * n + c;
            &&& i / n == y * w + x
            &&& i % n == c
            &&& (i / n) % w == x
            &&& (i / n) / w == y
        }),
{
    let p = y * w + x;
    lemma_fundamental_div_mod_converse(p * n + c, n, p, c);
    lemma_fundamental_div_mod_converse(p, w, y, x);
}

/// Builds the image from the samples of all blocks of the scan: for every
/// pixel and component the sample that serves it, converted to red, green
/// and blue where the frame has three components.
pub fn assemble(frame: &FrameHeader, samples: &Vec<u8>) -> (r: Result<Image, ErrorKind>)
    requires
        samples@.len() == 64 * frame@.block_count(),
    ensures
        match assemble_result(frame@, samples@) {
            Ok(view) => r matches Ok(img) && img@ == view,
            Err(e) => r matches Err(f) && f == e,
        },
{
    let geometry = Geometry::of(frame);
    let components = frame.components();
    let n = components.len();
    let w = frame.width() as usize;
    let h = frame.height() as usize;
    proof {
        assert(w * h <= 0xFFFF * 0xFFFF) by (nonlinear_arith)
            requires
                w <= 0xFFFF,
                h <= 0xFFFF,
        ;
        assert(w * h * n <= 0xFFFF * 0xFFFF * 4) by (nonlinear_arith)
            requires
                w * h <= 0xFFFF * 0xFFFF,
                n <= 4,
        ;
        assert(1 <= w * h) by (nonlinear_arith)
            requires
                1 <= w,
                1 <= h,
        ;
    }
    let area = w as u64 * h as u64;
    if area * n as u64 > usize::MAX as u64 {
        return Err(ErrorKind::UnsupportedEncoding);
    }
    let mut before: [u8; 4] = [0u8; 4];
    let mut i: usize = 0;
    let mut blocks: u8 = 0;
    while i < n
        invariant
            i <= n <= 4,
            n == components@.len(),
            components@ == frame@.components,
            frame@.wf(),
            blocks == blocks_before(components@, i as int),
            forall|j: int| 0 <= j < i ==> #[trigger] before@[j] == blocks_before(components@, j),
        decreases n - i,
    {
        let c = components[i];
        proof {
            lemma_geometry_bounds(components@, i as int);
            lemma_geometry_bounds(components@, i + 1);
            assert(c.wf());
            assert(c.h_factor * c.v_factor <= 16) by (nonlinear_arith)
                requires
                    c.h_factor <= 4,
                    c.v_factor <= 4,
            ;
        }
        before[i] = blocks;
        blocks = blocks + c.h_factor * c.v_factor;
        i += 1;
    }
    let pixels = w * h;
    let ghost want = assemble_spec(frame@, samples@).samples;
    let mut out: Vec<u8> = Vec::new();
    let mut x: usize = 0;
    let mut y: usize = 0;
    let mut p: usize = 0;
    while p < pixels
        invariant
            p <= pixels,
            pixels == w * h,
            pixels * n <= usize::MAX,
            w == frame@.width,
            h == frame@.height,
            n == frame@.components.len(),
            1 <= n <= 4,
            1 <= w,
            p == y * w + x,
            x < w,
            p < pixels ==> y < h,
            geometry.matches_frame(frame@),
            samples@.len() == 64 * frame@.block_count(),
            forall|j: int|
                0 <= j < frame@.components.len() ==> #[trigger] before@[j] == blocks_before(
                    frame@.components,
                    j,
                ),
            want == assemble_spec(frame@, samples@).samples,
            want.len() == pixels * n,
            out@.len() == p * n,
            forall|k: int| 0 <= k < out@.len() ==> #[trigger] out@[k] == want[k],
        decreases pixels - p,
    {
        let ghost held = out@;
        push_pixel(frame, &geometry, samples, &before, x, y, &mut out);
        proof {
            let pixel = pixel_spec(frame@, samples@, x as int, y as int);
            assert(p * n + n == (p + 1) * n) by (nonlinear_arith);
            assert((p + 1) * n <= pixels * n) by (nonlinear_arith)
                requires
                    p + 1 <= pixels,
                    0 <= n,
            ;
            assert forall|k: int| 0 <= k < out@.len() implies #[trigger] out@[k] == want[k] by {
                if k >= held.len() {
                    let c = k - held.len();
                    lemma_raster_index(w as int, n as int, x as int, y as int, c);
                    assert(out@[k] == pixel[c]);
                }
            }
            if x + 1 == w {
                assert((y + 1) * w == y * w + w) by (nonlinear_arith);
                if y + 1 >= h {
                    assert((y + 1) * w >= w * h) by (nonlinear_arith)
                        requires
                            y + 1 >= h,
                            w >= 0,
                    ;
                }
            }
        }
        x += 1;
        if x == w {
            x = 0;
            y += 1;
        }
        p += 1;
    }
    proof {
        assert(out@ =~= want);
    }
    Ok(Image::from_samples(w, h, n, out))
}

} // verus!
