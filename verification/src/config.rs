//! The options of the effect.

use vstd::prelude::*;

verus! {

/// What the pipeline can be told.
#[derive(Clone, Copy, Debug, PartialEq, Eq, Structural)]
pub struct Config {
    /// Columns per strip.
    pub strip_width: usize,
    /// The smallest number of splits of a strip.
    pub split_min: usize,
    /// The largest number of splits of a strip.
    pub split_max: usize,
    /// Width of the black frame at the left and the top of a cell.
    pub border_leading: usize,
    /// Width of the black frame at the right and the bottom of a cell.
    pub border_trailing: usize,
    /// Divisor of the centred random sample.
    pub noise_scale: u32,
    /// Divisor of the part of the noise that is taken back at each pixel.
    pub noise_decay: u32,
    /// Divisor of the darkening from the top of a cell to its bottom.
    pub gradient_strength: u32,
}

impl Config {
    /// Strips have columns, the split range is not empty and no divisor is 0.
    pub open spec fn wf(self) -> bool {
        &&& self.strip_width > 0
        &&& self.split_min <= self.split_max
        &&& self.noise_scale > 0
        &&& self.noise_decay > 0
        &&& self.gradient_strength > 0
    }

    /// The standard options: strips of 50 columns with 4 to 8 splits, a frame
    /// of 3 and 4 pixels, and the divisors 10, 5 and 4.
    pub open spec fn standard() -> Config {
        Config {
            strip_width: 50,
            split_min: 4,
            split_max: 8,
            border_leading: 3,
            border_trailing: 4,
            noise_scale: 10,
            noise_decay: 5,
            gradient_strength: 4,
        }
    }

    /// Whether the options can be used.
    pub fn is_valid(&self) -> (ok: bool)
        ensures
            ok == self.wf(),
    {
        self.strip_width > 0 && self.split_min <= self.split_max && self.noise_scale > 0
            && self.noise_decay > 0 && self.gradient_strength > 0
    }
}

impl Default for Config {
    fn default() -> (c: Config)
        ensures
            c == Config::standard(),
            c.wf(),
    {
        Config {
            strip_width: 50,
            split_min: 4,
            split_max: 8,
            border_leading: 3,
            border_trailing: 4,
            noise_scale: 10,
            noise_decay: 5,
            gradient_strength: 4,
        }
    }
}

} // verus!
