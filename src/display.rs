//! Where spectrogram columns and landmarks land on a scrolling RGBA canvas
//! of `display_size` columns by `display_height` rows, one column per step.
use vstd::prelude::*;

verus! {

/// The canvas a spectrogram is drawn on.
#[derive(Debug, Clone)]
pub struct DisplayConfig {
    pub canvas_name: String,
    pub display_size: usize,
    pub display_height: usize,
}

impl DisplayConfig {
    /// The canvas has room, and its RGBA bytes can be counted in a `usize`.
    pub open spec fn fits(&self) -> bool {
        &&& self.display_size > 0
        &&& self.display_height > 0
        &&& 4 * self.display_size * self.display_height <= usize::MAX
    }

    /// The number of RGBA bytes of the whole canvas.
    pub fn image_len(&self) -> (r: usize)
        requires
            self.fits(),
        ensures
            r == 4 * self.display_size * self.display_height,
    {
        proof {
            assert(4 * self.display_size <= 4 * self.display_size * self.display_height)
                by (nonlinear_arith)
                requires self.display_height >= 1;
        }
        4 * self.display_size * self.display_height
    }

    /// The first step still on screen after step `now`: the canvas shows the
    /// last `display_size` steps.
    pub fn visible_since(&self, now: usize) -> (r: usize)
        ensures
            r == (if now > self.display_size {
                now - self.display_size
            } else {
                0
            }),
    {
        if now > self.display_size {
            now - self.display_size
        } else {
            0
        }
    }

    /// The column of step `time` on the canvas after step `now`: columns
    /// fill from the left until the canvas is full, then scroll so that the
    /// newest step stands at the right edge. `None` where the step is not on
    /// screen.
    pub fn column_of(&self, now: usize, time: usize) -> (r: Option<usize>)
        ensures
            r == (if time > now {
                None
            } else if now > self.display_size {
                if now - time <= self.display_size && now - time > 0 {
                    Some((self.display_size - (now - time)) as usize)
                } else {
                    None
                }
            } else if time < self.display_size {
                Some(time)
            } else {
                None
            }),
            r matches Some(x) ==> x < self.display_size,
    {
        if time > now {
            None
        } else if now > self.display_size {
            let age = now - time;
            if age <= self.display_size && age > 0 {
                Some(self.display_size - age)
            } else {
                None
            }
        } else if time < self.display_size {
            Some(time)
        } else {
            None
        }
    }

    /// The row on which bin `bin_index` of `bin_count` bins is drawn.
    pub fn row_of_bin(&self, bin_index: usize, bin_count: usize) -> (r: usize)
        requires
            bin_index < bin_count,
        ensures
            r == (bin_index as int) * (self.display_height as int) / (bin_count as int),
            r < self.display_height || self.display_height == 0,
    {
        proof {
            assert((bin_index as int) * (self.display_height as int) <= u128::MAX) by (nonlinear_arith)
                requires bin_index <= u64::MAX, self.display_height <= u64::MAX;
            assert((bin_index as int) * (self.display_height as int) / (bin_count as int)
                < self.display_height || self.display_height == 0) by (nonlinear_arith)
                requires bin_index < bin_count;
        }
        let wide: u128 = (bin_index as u128) * (self.display_height as u128);
        (wide / (bin_count as u128)) as usize
    }

    /// The bin shown on row `y` of a frame of `bin_count` bins: rows pick
    /// bins at an even stride.
    pub fn bin_of_row(&self, y: usize, bin_count: usize) -> (r: usize)
        requires
            y < self.display_height,
        ensures
            r == y * (bin_count / self.display_height),
            r <= bin_count,
    {
        let stride = bin_count / self.display_height;
        proof {
            assert(y * stride <= bin_count) by (nonlinear_arith)
                requires y < self.display_height, stride == bin_count / self.display_height,
                    self.display_height > 0;
        }
        y * stride
    }

    /// The offset of the red byte of pixel `(x, y)` in the canvas' RGBA
    /// bytes; green, blue and alpha follow it.
    pub fn pixel_offset(&self, x: usize, y: usize) -> (r: usize)
        requires
            self.fits(),
            x < self.display_size,
            y < self.display_height,
        ensures
            r == 4 * (x + y * self.display_size),
            r + 3 < 4 * self.display_size * self.display_height,
    {
        proof {
            assert(4 * (x + y * self.display_size) + 3 < 4 * self.display_size * self.display_height)
                by (nonlinear_arith)
                requires x < self.display_size, y < self.display_height;
        }
        4 * (x + y * self.display_size)
    }
}

} // verus!
