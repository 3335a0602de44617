//! The colors of the traces of a plot.

use vstd::prelude::*;

verus! {

/// The number of default colors.
pub const DEFAULT_COLOR_COUNT: usize = 10;

/// The default colors, in the order in which they are handed out.
pub open spec fn default_color(index: int) -> Seq<char> {
    if index == 0 {
        "#1f77b4"@
    } else if index == 1 {
        "#ff7f0e"@
    } else if index == 2 {
        "#2ca02c"@
    } else if index == 3 {
        "#d62728"@
    } else if index == 4 {
        "#9467bd"@
    } else if index == 5 {
        "#8c564b"@
    } else if index == 6 {
        "#e377c2"@
    } else if index == 7 {
        "#7f7f7f"@
    } else if index == 8 {
        "#bcbd22"@
    } else {
        "#17becf"@
    }
}

/// Hands out the default colors one after the other and starts again after
/// the last. All segments of one series get the color of one call, so they
/// look like one trace.
pub struct DefaultColorGenerator {
    index: usize,
}

impl DefaultColorGenerator {
    /// The position of the color that `next` hands out.
    pub closed spec fn position(&self) -> int {
        self.index as int
    }

    pub closed spec fn well_formed(&self) -> bool {
        self.index < DEFAULT_COLOR_COUNT
    }

    pub fn new() -> (generator: DefaultColorGenerator)
        ensures
            generator.well_formed(),
            generator.position() == 0,
    {
        DefaultColorGenerator { index: 0 }
    }

    /// The next color in the sequence.
    pub fn next(&mut self) -> (color: &'static str)
        requires
            old(self).well_formed(),
        ensures
            final(self).well_formed(),
            color@ == default_color(old(self).position()),
            final(self).position() == (old(self).position() + 1) % 10,
    {
        let color = if self.index == 0 {
            "#1f77b4"
        } else if self.index == 1 {
            "#ff7f0e"
        } else if self.index == 2 {
            "#2ca02c"
        } else if self.index == 3 {
            "#d62728"
        } else if self.index == 4 {
            "#9467bd"
        } else if self.index == 5 {
            "#8c564b"
        } else if self.index == 6 {
            "#e377c2"
        } else if self.index == 7 {
            "#7f7f7f"
        } else if self.index == 8 {
            "#bcbd22"
        } else {
            "#17becf"
        };
        self.index = (self.index + 1) % DEFAULT_COLOR_COUNT;
        color
    }
}

} // verus!
