//! The pixel raster that decoding produces.
use vstd::prelude::*;

verus! {

/// The mathematical content of an [`Image`]: its dimensions and its samples
/// in row-major order, the channels of one pixel next to each other.
pub struct ImageView {
    pub width: nat,
    pub height: nat,
    pub channels: nat,
    pub samples: Seq<u8>,
}

impl ImageView {
    /// The dimensions are positive and the buffer holds exactly one sample
    /// per pixel and channel.
    pub open spec fn wf(self) -> bool {
        &&& self.width > 0
        &&& self.height > 0
        &&& self.channels > 0
        &&& self.samples.len() == self.width * self.height * self.channels
    }

    /// Where the sample of channel `c` at column `x`, row `y` is stored.
    pub open spec fn index_of(self, x: int, y: int, c: int) -> int {
        (y * self.width + x) * self.channels + c
    }

    /// The sample of channel `c` at column `x`, row `y`.
    pub open spec fn sample(self, x: int, y: int, c: int) -> u8 {
        self.samples[self.index_of(x, y, c)]
    }

    /// Every pixel of the image equals `pixel`, channel by channel.
    pub open spec fn is_filled_with(self, pixel: Seq<u8>) -> bool {
        forall|i: int|
            0 <= i < self.samples.len() ==> #[trigger] self.samples[i] == pixel[i
                % (self.channels as int)]
    }
}

/// Stride arithmetic: a coordinate inside the image maps to an index inside
/// the buffer.
pub proof fn lemma_index_in_bounds(w: int, h: int, ch: int, x: int, y: int, c: int)
    requires
        0 <= x < w,
        0 <= y < h,
        0 <= c < ch,
    ensures
        0 <= y * w,
        0 <= y * w + x < w * h,
        w * h <= w * h * ch,
        0 <= (y * w + x) * ch,
        0 <= (y * w + x) * ch + c < w * h * ch,
{
    assert(w * h <= w * h * ch) by (nonlinear_arith)
        requires
            0 < w,
            0 < h,
            1 <= ch,
    ;
    assert(0 <= y * w) by (nonlinear_arith)
        requires
            0 <= y,
            0 <= w,
    ;
    assert(y * w + w <= w * h) by (nonlinear_arith)
        requires
            y + 1 <= h,
            0 <= w,
    ;
    let p = y * w + x;
    assert(0 <= p * ch) by (nonlinear_arith)
        requires
            0 <= p,
            0 <= ch,
    ;
    assert(p * ch + ch <= w * h * ch) by (nonlinear_arith)
        requires
            p + 1 <= w * h,
            0 <= ch,
    ;
}

/// A `width` × `height` raster with `channels` byte samples per pixel, stored
/// row by row in one contiguous buffer.
#[derive(Debug)]
pub struct Image {
    width: usize,
    height: usize,
    channels: usize,
    data: Vec<u8>,
}

impl View for Image {
    type V = ImageView;

    closed spec fn view(&self) -> ImageView {
        ImageView {
            width: self.width as nat,
            height: self.height as nat,
            channels: self.channels as nat,
            samples: self.data@,
        }
    }
}

impl Image {
    #[verifier::type_invariant]
    spec fn inv(self) -> bool {
        self@.wf()
    }

    /// A black image: every sample is zero.
    pub fn new(w: usize, h: usize, c: usize) -> (img: Image)
        requires
            w > 0,
            h > 0,
            c > 0,
            w * h * c <= usize::MAX,
        ensures
            img@.wf(),
            img@.width == w,
            img@.height == h,
            img@.channels == c,
            forall|i: int| 0 <= i < img@.samples.len() ==> img@.samples[i] == 0,
    {
        assert(w * h <= w * h * c) by (nonlinear_arith)
            requires
                c >= 1,
                w >= 0,
                h >= 0,
        ;
        let n = w * h * c;
        Image { width: w, height: h, channels: c, data: vec![0u8; n] }
    }

    /// Wraps a buffer that already holds one sample per pixel and channel.
    pub fn from_samples(w: usize, h: usize, c: usize, data: Vec<u8>) -> (img: Image)
        requires
            w > 0,
            h > 0,
            c > 0,
            data@.len() == w * h * c,
        ensures
            img@ == (ImageView {
                width: w as nat,
                height: h as nat,
                channels: c as nat,
                samples: data@,
            }),
    {
        Image { width: w, height: h, channels: c, data }
    }

    /// Sets every sample to zero.
    pub fn clear(&mut self)
        ensures
            final(self)@.width == old(self)@.width,
            final(self)@.height == old(self)@.height,
            final(self)@.channels == old(self)@.channels,
            final(self)@.wf(),
            forall|i: int| 0 <= i < final(self)@.samples.len() ==> final(self)@.samples[i] == 0,
    {
        proof {
            use_type_invariant(&*self);
        }
        let n = self.data.len();
        let mut i: usize = 0;
        while i < n
            invariant
                i <= n,
                n == self.data@.len(),
                self.width == old(self).width,
                self.height == old(self).height,
                self.channels == old(self).channels,
                self@.wf(),
                forall|j: int| 0 <= j < i ==> self.data@[j] == 0,
            decreases n - i,
        {
            self.data[i] = 0;
            i += 1;
        }
    }

    /// Paints every pixel with `pixel`, which holds one sample per channel.
    pub fn fill(&mut self, pixel: &Vec<u8>)
        requires
            pixel@.len() == old(self)@.channels,
        ensures
            final(self)@.width == old(self)@.width,
            final(self)@.height == old(self)@.height,
            final(self)@.channels == old(self)@.channels,
            final(self)@.wf(),
            final(self)@.is_filled_with(pixel@),
            forall|x: int, y: int, c: int|
                0 <= x < old(self)@.width && 0 <= y < old(self)@.height && 0 <= c < old(self)@.channels
                    ==> #[trigger] final(self)@.sample(x, y, c) == pixel@[c],
    {
        proof {
            use_type_invariant(&*self);
        }
        let n = self.data.len();
        let ch = self.channels;
        let mut i: usize = 0;
        let mut c: usize = 0;
        while i < n
            invariant
                i <= n,
                n == self.data@.len(),
                ch == self.channels,
                ch == pixel@.len(),
                self.width == old(self).width,
                self.height == old(self).height,
                self.channels == old(self).channels,
                self@.wf(),
                c < ch,
                c == i % ch,
                forall|j: int| 0 <= j < i ==> #[trigger] self.data@[j] == pixel@[j % (ch as int)],
            decreases n - i,
        {
            self.data[i] = pixel[c];
            proof {
                lemma_next_residue(i as int, ch as int);
            }
            i += 1;
            c += 1;
            if c == ch {
                c = 0;
            }
        }
        proof {
            let v = self@;
            assert forall|x: int, y: int, k: int|
                0 <= x < v.width && 0 <= y < v.height && 0 <= k < v.channels implies #[trigger] v.sample(
                x,
                y,
                k,
            ) == pixel@[k] by {
                lemma_index_in_bounds(v.width as int, v.height as int, v.channels as int, x, y, k);
                let p = y * v.width + x;
                vstd::arithmetic::div_mod::lemma_mod_multiples_vanish(p, k, v.channels as int);
                vstd::arithmetic::div_mod::lemma_small_mod(k as nat, v.channels);
                assert(p * v.channels + k == v.channels * p + k) by (nonlinear_arith);
            }
        }
    }

    /// The number of columns.
    pub fn width(&self) -> (w: usize)
        ensures
            w == self@.width,
            w > 0,
    {
        proof {
            use_type_invariant(self);
        }
        self.width
    }

    /// The number of rows.
    pub fn height(&self) -> (h: usize)
        ensures
            h == self@.height,
            h > 0,
    {
        proof {
            use_type_invariant(self);
        }
        self.height
    }

    /// The number of samples per pixel.
    pub fn channels(&self) -> (c: usize)
        ensures
            c == self@.channels,
            c > 0,
    {
        proof {
            use_type_invariant(self);
        }
        self.channels
    }

    /// The whole buffer, row by row.
    pub fn samples(&self) -> (s: &Vec<u8>)
        ensures
            s@ == self@.samples,
            self@.wf(),
    {
        proof {
            use_type_invariant(self);
        }
        &self.data
    }

    /// The sample of channel `c` at column `x`, row `y`, or `None` when the
    /// coordinate lies outside the image.
    pub fn get(&self, x: usize, y: usize, c: usize) -> (s: Option<u8>)
        ensures
            s == if x < self@.width && y < self@.height && c < self@.channels {
                Some(self@.sample(x as int, y as int, c as int))
            } else {
                None
            },
    {
        proof {
            use_type_invariant(self);
        }
        if x < self.width && y < self.height && c < self.channels {
            proof {
                lemma_index_in_bounds(
                    self.width as int,
                    self.height as int,
                    self.channels as int,
                    x as int,
                    y as int,
                    c as int,
                );
            }
            let n = self.data.len();
            assert(y * self.width + x < n);
            Some(self.data[(y * self.width + x) * self.channels + c])
        } else {
            None
        }
    }
}

/// Stepping an index forward steps its residue forward, wrapping at the
/// modulus.
pub proof fn lemma_next_residue(i: int, m: int)
    requires
        0 <= i,
        0 < m,
    ensures
        (i + 1) % m == if i % m + 1 == m {
            0
        } else {
            i % m + 1
        },
{
    vstd::arithmetic::div_mod::lemma_fundamental_div_mod(i, m);
    vstd::arithmetic::div_mod::lemma_mod_bound(i, m);
    let q = i / m;
    let r = i % m;
    if r + 1 == m {
        assert(i + 1 == (q + 1) * m + 0) by (nonlinear_arith)
            requires
                i == m * q + r,
                r + 1 == m,
        ;
        vstd::arithmetic::div_mod::lemma_fundamental_div_mod_converse(i + 1, m, q + 1, 0);
    } else {
        assert(i + 1 == q * m + (r + 1)) by (nonlinear_arith)
            requires
                i == m * q + r,
        ;
        vstd::arithmetic::div_mod::lemma_fundamental_div_mod_converse(i + 1, m, q, r + 1);
    }
}

} // verus!
