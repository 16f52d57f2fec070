//! The raster data model: a 2D grid of 8-bit samples, one or three
//! channels per pixel, stored row-major with channels interleaved.

use vstd::prelude::*;
use vstd::pervasive::VecAdditionalExecFns;

verus! {

/// Processing mode chosen by the caller: it fixes how many channels each
/// pixel holds (one for grayscale, three for color) but not the algorithm.
#[derive(Clone, Copy, PartialEq, Eq, Structural, Debug)]
pub enum Mode {
    Grayscale,
    Color,
}

impl Mode {
    /// Number of channels a pixel holds in this mode.
    pub open spec fn spec_channels(self) -> int {
        match self {
            Mode::Grayscale => 1,
            Mode::Color => 3,
        }
    }

    /// Number of channels a pixel holds in this mode.
    pub fn channels(self) -> (r: usize)
        ensures
            r == self.spec_channels(),
    {
        match self {
            Mode::Grayscale => 1,
            Mode::Color => 3,
        }
    }
}

/// Position, in the row-major sample buffer of a raster of width `w` with
/// `c` channels per pixel, of channel `ch` of the pixel at (`x`, `y`).
pub open spec fn sample_index(w: int, c: int, x: int, y: int, ch: int) -> int {
    (y * w + x) * c + ch
}

/// Every sample index of a pixel in bounds is itself in bounds, and the
/// intermediate products stay below the final one, so the executable index
/// arithmetic cannot overflow.
pub proof fn lemma_sample_index_bound(w: int, h: int, c: int, x: int, y: int, ch: int)
    by (nonlinear_arith)
    requires
        0 <= x < w,
        0 <= y < h,
        0 <= ch < c,
    ensures
        0 <= y * w + x < w * h,
        y * w + x <= (y * w + x) * c,
        0 <= sample_index(w, c, x, y, ch) < w * h * c,
{
}

/// A mutable 2D grid of 8-bit intensity samples. The view is the flat
/// sample sequence in row-major order, channels interleaved per pixel.
pub struct Raster {
    width: usize,
    height: usize,
    mode: Mode,
    data: Vec<u8>,
}

impl View for Raster {
    type V = Seq<u8>;

    closed spec fn view(&self) -> Seq<u8> {
        self.data@
    }
}

impl Raster {
    /// Width in pixels.
    pub closed spec fn spec_width(self) -> int {
        self.width as int
    }

    /// Height in pixels.
    pub closed spec fn spec_height(self) -> int {
        self.height as int
    }

    /// The mode the raster was created with.
    pub closed spec fn spec_mode(self) -> Mode {
        self.mode
    }

    /// Channels per pixel (1 or 3, by the mode).
    pub open spec fn spec_channels(self) -> int {
        self.spec_mode().spec_channels()
    }

    /// Well-formedness: the buffer holds exactly one sample per channel per
    /// pixel.
    pub open spec fn wf(self) -> bool {
        self@.len() == self.spec_width() * self.spec_height() * self.spec_channels()
    }

    /// Wrap a sample buffer as a raster of the given geometry. Returns the
    /// raster exactly when the buffer length matches the geometry, and
    /// `None` otherwise.
    pub fn new(width: usize, height: usize, mode: Mode, data: Vec<u8>) -> (r: Option<Raster>)
        ensures
            match r {
                Some(img) => {
                    &&& img.wf()
                    &&& img.spec_width() == width
                    &&& img.spec_height() == height
                    &&& img.spec_mode() == mode
                    &&& img@ == data@
                    &&& data@.len() == width * height * mode.spec_channels()
                },
                None => data@.len() != width * height * mode.spec_channels(),
            },
    {
        let c = mode.channels();
        let len = data.len();
        match width.checked_mul(height) {
            Some(p) => match p.checked_mul(c) {
                Some(n) => {
                    if len == n {
                        Some(Raster { width, height, mode, data })
                    } else {
                        None
                    }
                },
                None => {
                    proof {
                        assert(len < p * c);
                        assert(p * c == width * height * c);
                    }
                    None
                },
            },
            None => {
                proof {
                    assert(width * height * c > usize::MAX) by (nonlinear_arith)
                        requires
                            c >= 1,
                            width * height > usize::MAX,
                    ;
                }
                None
            },
        }
    }

    /// Width in pixels.
    pub fn width(&self) -> (r: usize)
        ensures
            r == self.spec_width(),
    {
        self.width
    }

    /// Height in pixels.
    pub fn height(&self) -> (r: usize)
        ensures
            r == self.spec_height(),
    {
        self.height
    }

    /// The mode the raster was created with.
    pub fn mode(&self) -> (r: Mode)
        ensures
            r == self.spec_mode(),
    {
        self.mode
    }

    /// Channels per pixel.
    pub fn channels(&self) -> (r: usize)
        ensures
            r == self.spec_channels(),
    {
        self.mode.channels()
    }

    /// Read channel `ch` of the pixel at (`x`, `y`).
    pub fn get(&self, x: usize, y: usize, ch: usize) -> (r: u8)
        requires
            self.wf(),
            x < self.spec_width(),
            y < self.spec_height(),
            ch < self.spec_channels(),
        ensures
            r == self@[sample_index(self.spec_width(), self.spec_channels(), x as int, y as int, ch as int)],
    {
        proof {
            lemma_sample_index_bound(
                self.spec_width(),
                self.spec_height(),
                self.spec_channels(),
                x as int,
                y as int,
                ch as int,
            );
        }
        let n = self.data.len();
        proof {
            assert(n == self@.len());
        }
        let i = (y * self.width + x) * self.channels() + ch;
        self.data[i]
    }

    /// Overwrite channel `ch` of the pixel at (`x`, `y`) with `v`; every
    /// other sample is unchanged.
    pub fn set(&mut self, x: usize, y: usize, ch: usize, v: u8)
        requires
            old(self).wf(),
            x < old(self).spec_width(),
            y < old(self).spec_height(),
            ch < old(self).spec_channels(),
        ensures
            final(self).wf(),
            final(self).spec_width() == old(self).spec_width(),
            final(self).spec_height() == old(self).spec_height(),
            final(self).spec_mode() == old(self).spec_mode(),
            final(self)@ == old(self)@.update(
                sample_index(old(self).spec_width(), old(self).spec_channels(), x as int, y as int, ch as int),
                v,
            ),
    {
        proof {
            lemma_sample_index_bound(
                self.spec_width(),
                self.spec_height(),
                self.spec_channels(),
                x as int,
                y as int,
                ch as int,
            );
        }
        let n = self.data.len();
        proof {
            assert(n == self@.len());
        }
        let i = (y * self.width + x) * self.channels() + ch;
        self.data.set(i, v);
    }

    /// Give the sample buffer back to the caller.
    pub fn into_data(self) -> (r: Vec<u8>)
        ensures
            r@ == self@,
    {
        self.data
    }
}

} // verus!
