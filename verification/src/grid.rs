//! The two raster types of the pipeline: an immutable grid of intensity
//! samples, and a binary foreground/background mask.

use vstd::prelude::*;

verus! {

/// Number of intensity levels of a sixteen-bit grid, one past the largest
/// representable sample.
pub const MAX_LEVELS: u32 = 65536;

/// An immutable width x height grid of unsigned intensity samples, stored in
/// row-major order. The sample bit depth is fixed when the grid is made:
/// every sample lies below `levels`.
#[derive(Debug)]
pub struct IntensityGrid {
    /// Width in pixels.
    pub width: usize,
    /// Height in pixels.
    pub height: usize,
    /// One past the largest representable sample value.
    pub levels: u32,
    /// Row-major samples, `height` rows of `width` samples.
    pub data: Vec<u16>,
}

impl IntensityGrid {
    /// Well-formedness: the data covers the grid exactly, the grid is small
    /// enough that sums of samples and of squared samples fit in a `u64`
    /// accumulator, and every sample lies below `levels`.
    pub open spec fn wf(self) -> bool {
        &&& self.data@.len() == self.width * self.height
        &&& self.data@.len() < 0x1_0000_0000
        &&& 2 <= self.levels <= MAX_LEVELS
        &&& forall|i: int| 0 <= i < self.data@.len() ==> (#[trigger] self.data@[i]) < self.levels
    }

    /// The sample at column `x`, row `y`.
    pub open spec fn sample(self, x: int, y: int) -> u16 {
        self.data@[y * self.width + x]
    }

    pub open spec fn spec_width(self) -> usize {
        self.width
    }

    pub open spec fn spec_height(self) -> usize {
        self.height
    }

    pub open spec fn spec_levels(self) -> u32 {
        self.levels
    }

    pub open spec fn spec_data(self) -> Seq<u16> {
        self.data@
    }

    /// Builds a grid from row-major samples. Returns `None` exactly when the
    /// samples do not fit the stated shape or bit depth.
    pub fn new(width: usize, height: usize, levels: u32, data: Vec<u16>) -> (r: Option<
        IntensityGrid,
    >)
        ensures
            match r {
                Some(g) => {
                    &&& g.wf()
                    &&& g.spec_width() == width
                    &&& g.spec_height() == height
                    &&& g.spec_levels() == levels
                    &&& g.spec_data() == data@
                },
                None => !(IntensityGrid { width, height, levels, data }).wf(),
            },
    {
        let prod_ok: bool = match width.checked_mul(height) {
            Some(p) => data.len() == p,
            None => false,
        };
        if !prod_ok {
            return None;
        }
        if data.len() as u64 >= 0x1_0000_0000u64 {
            return None;
        }
        if levels < 2 || levels > MAX_LEVELS {
            return None;
        }
        let mut i: usize = 0;
        while i < data.len()
            invariant
                0 <= i <= data@.len(),
                forall|j: int| 0 <= j < i ==> (#[trigger] data@[j]) < levels,
            decreases data@.len() - i,
        {
            if data[i] as u32 >= levels {
                return None;
            }
            i += 1;
        }
        Some(IntensityGrid { width, height, levels, data })
    }

    /// Grid width in pixels.
    pub fn width(&self) -> (w: usize)
        ensures
            w == self.spec_width(),
    {
        self.width
    }

    /// Grid height in pixels.
    pub fn height(&self) -> (h: usize)
        ensures
            h == self.spec_height(),
    {
        self.height
    }

    /// One past the largest representable sample value.
    pub fn levels(&self) -> (l: u32)
        ensures
            l == self.spec_levels(),
    {
        self.levels
    }

    /// The sample at column `x`, row `y`.
    pub fn get(&self, x: usize, y: usize) -> (v: u16)
        requires
            self.wf(),
            x < self.spec_width(),
            y < self.spec_height(),
        ensures
            v == self.sample(x as int, y as int),
            v < self.spec_levels(),
    {
        proof {
            assert(self.data.len() == self.data@.len());
            lemma_row_major_index(
                self.width as int,
                self.height as int,
                x as int,
                y as int,
            );
        }
        self.data[y * self.width + x]
    }
}

/// A width x height grid of two-valued samples; `true` marks a foreground
/// (drawable) pixel.
#[derive(Debug)]
pub struct BinaryMask {
    /// Width in pixels.
    pub width: usize,
    /// Height in pixels.
    pub height: usize,
    /// Row-major pixels; `true` is foreground.
    pub data: Vec<bool>,
}

impl BinaryMask {
    /// Well-formedness: the data covers the mask exactly.
    pub open spec fn wf(self) -> bool {
        self.data@.len() == self.width * self.height
    }

    /// Whether the pixel at column `x`, row `y` is foreground.
    pub open spec fn fg(self, x: int, y: int) -> bool {
        self.data@[y * self.width + x]
    }

    pub open spec fn spec_width(self) -> usize {
        self.width
    }

    pub open spec fn spec_height(self) -> usize {
        self.height
    }

    pub open spec fn spec_data(self) -> Seq<bool> {
        self.data@
    }

    /// Two masks are pixel-for-pixel equal.
    pub open spec fn same_image(self, other: BinaryMask) -> bool {
        &&& self.width == other.width
        &&& self.height == other.height
        &&& self.data@ == other.data@
    }

    /// Builds a mask from row-major pixels. Returns `None` exactly when the
    /// pixel count does not match the stated shape.
    pub fn new(width: usize, height: usize, data: Vec<bool>) -> (r: Option<BinaryMask>)
        ensures
            match r {
                Some(m) => {
                    &&& m.wf()
                    &&& m.spec_width() == width
                    &&& m.spec_height() == height
                    &&& m.spec_data() == data@
                },
                None => !(BinaryMask { width, height, data }).wf(),
            },
    {
        let prod_ok: bool = match width.checked_mul(height) {
            Some(p) => data.len() == p,
            None => false,
        };
        if !prod_ok {
            proof {
                assert(data.len() == data@.len());
            }
            return None;
        }
        Some(BinaryMask { width, height, data })
    }

    /// Mask width in pixels.
    pub fn width(&self) -> (w: usize)
        ensures
            w == self.spec_width(),
    {
        self.width
    }

    /// Mask height in pixels.
    pub fn height(&self) -> (h: usize)
        ensures
            h == self.spec_height(),
    {
        self.height
    }

    /// Whether the pixel at column `x`, row `y` is foreground.
    pub fn get(&self, x: usize, y: usize) -> (v: bool)
        requires
            self.wf(),
            x < self.spec_width(),
            y < self.spec_height(),
        ensures
            v == self.fg(x as int, y as int),
    {
        proof {
            assert(self.data.len() == self.data@.len());
            lemma_row_major_index(
                self.width as int,
                self.height as int,
                x as int,
                y as int,
            );
        }
        self.data[y * self.width + x]
    }
}

/// A row-major index `y * w + x` with `x < w`, `y < h` stays below `w * h`.
#[verifier::nonlinear]
pub proof fn lemma_row_major_index(w: int, h: int, x: int, y: int)
    requires
        0 <= x < w,
        0 <= y < h,
    ensures
        0 <= y * w,
        y * w + x < w * h,
{
}

} // verus!
