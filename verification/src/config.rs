//! The plot configuration: what a configuration file can say, as plain
//! values.

use crate::text::{
    amount_shape, ascii_bytes, chars_of, decimal, decimal_value, lemma_shape_is_ascii, scan_amount,
};
use vstd::prelude::*;

verus! {

/// How the range of an axis is chosen.
#[derive(Clone, Copy, Debug, PartialEq, Eq)]
pub enum RangeMode {
    Normal,
    ToZero,
    NonNegative,
}

/// The title of a plot or of an axis.
#[derive(Clone, Debug, Default)]
pub struct Title {
    text: String,
}

impl Title {
    pub closed spec fn text_view(&self) -> Seq<char> {
        self.text@
    }

    pub fn new(text: String) -> (title: Title)
        ensures
            title.text_view() == text@,
    {
        Title { text }
    }

    pub fn text(&self) -> (text: &str)
        ensures
            text@ == self.text_view(),
    {
        self.text.as_str()
    }
}

#[derive(Clone, Copy, Debug, PartialEq, Eq)]
pub enum AxisType {
    Default,
    Linear,
    Log,
    Date,
    Category,
    MultiCategory,
}

#[derive(Clone, Copy, Debug, PartialEq, Eq)]
pub enum AxisSide {
    Top,
    Bottom,
    Left,
    Right,
}

/// A time series of durations read from one column of one table.
#[derive(Clone, Debug)]
pub struct TimeScatterPlot {
    pub table: String,
    pub column: String,
    pub unit: Option<TimeUnit>,
}

/// A time series of counters read from one column of one table.
#[derive(Clone, Debug)]
pub struct CountScatterPlot {
    pub table: String,
    pub column: String,
}

/// A histogram of overlap against duration for one view.
#[derive(Clone, Copy, Debug, PartialEq, Eq)]
pub struct OverlapPlot {
    pub view_id: i32,
    pub x_bins: Option<u32>,
    pub y_bins: Option<u32>,
}

#[derive(Clone, Debug)]
pub enum PlotVariant {
    TimeScatter(TimeScatterPlot),
    CountScatter(CountScatterPlot),
    Overlap(OverlapPlot),
}

/// Which samples a plot reads.
#[derive(Clone, Debug, Default)]
pub struct Filter {
    pub start: Option<String>,
    pub end: Option<String>,
    pub sql_where: Option<String>,
    pub work_hours: Option<bool>,
}

#[derive(Clone, Copy, Debug, PartialEq, Eq)]
pub enum Visible {
    True,
    False,
    LegendOnly,
}

#[derive(Clone, Copy, Debug, PartialEq, Eq)]
pub enum LineShape {
    Linear,
    Spline,
    Hv,
    Vh,
    Hvh,
    Vhv,
}

#[derive(Clone, Copy, Debug, PartialEq, Eq)]
pub enum DashType {
    Solid,
    Dot,
    Dash,
    LongDash,
    DashDot,
    LongDashDot,
}

#[derive(Clone, Copy, Debug, PartialEq, Eq)]
pub enum ColorScalePalette {
    Greys,
    YlGnBu,
    Greens,
    YlOrRd,
    Bluered,
    RdBu,
    Reds,
    Blues,
    Picnic,
    Rainbow,
    Portland,
    Jet,
    Hot,
    Blackbody,
    Earth,
    Electric,
    Viridis,
    Cividis,
}

#[derive(Clone, Copy, Debug, PartialEq, Eq)]
pub enum Mode {
    Lines,
    Markers,
    Text,
    LinesMarkers,
    LinesText,
    MarkersText,
    LinesMarkersText,
    /// Neither lines nor markers nor text.
    Nothing,
}

/// A unit of time, from years down to nanoseconds.
#[derive(Clone, Copy, Debug, PartialEq, Eq)]
pub enum TimeUnit {
    Years,
    Months,
    Weeks,
    Days,
    Hours,
    Minutes,
    Seconds,
    Milliseconds,
    Microseconds,
    Nanoseconds,
}

/// The statistic that stands for the samples of one bin.
#[derive(Clone, Copy, Debug, PartialEq, Eq)]
pub enum AggregationMode {
    Mean,
    Min,
    Q1,
    Median,
    Q3,
    Max,
    Count,
}

/// A length of time: a quantity of a unit.
#[derive(Clone, Copy, Debug, PartialEq, Eq)]
pub struct TimePeriod {
    pub quantity: u64,
    pub unit: TimeUnit,
}

/// How the samples of a plot are binned and what stands for each bin.
#[derive(Clone, Copy, Debug, PartialEq, Eq)]
pub struct Aggregation {
    pub mode: AggregationMode,
    pub size: TimePeriod,
    pub min_count: Option<usize>,
}

/// The nanoseconds in one `unit`, for the units of a fixed length: from
/// nanoseconds up to days.
pub open spec fn unit_nanoseconds(unit: TimeUnit) -> Option<int> {
    match unit {
        TimeUnit::Nanoseconds => Some(1int),
        TimeUnit::Microseconds => Some(1_000int),
        TimeUnit::Milliseconds => Some(1_000_000int),
        TimeUnit::Seconds => Some(1_000_000_000int),
        TimeUnit::Minutes => Some(60_000_000_000int),
        TimeUnit::Hours => Some(3_600_000_000_000int),
        TimeUnit::Days => Some(86_400_000_000_000int),
        TimeUnit::Weeks | TimeUnit::Months | TimeUnit::Years => None,
    }
}

/// The unit that a symbol of a configuration stands for: `Y`, `M`, `W`, `D`,
/// `h`, `m`, `s`, `ms`, `us` or `ns`.
pub open spec fn unit_of_symbol(symbol: Seq<char>) -> Option<TimeUnit> {
    if symbol.len() == 1 {
        if symbol[0] == 'Y' {
            Some(TimeUnit::Years)
        } else if symbol[0] == 'M' {
            Some(TimeUnit::Months)
        } else if symbol[0] == 'W' {
            Some(TimeUnit::Weeks)
        } else if symbol[0] == 'D' {
            Some(TimeUnit::Days)
        } else if symbol[0] == 'h' {
            Some(TimeUnit::Hours)
        } else if symbol[0] == 'm' {
            Some(TimeUnit::Minutes)
        } else if symbol[0] == 's' {
            Some(TimeUnit::Seconds)
        } else {
            None
        }
    } else if symbol.len() == 2 && symbol[1] == 's' {
        if symbol[0] == 'm' {
            Some(TimeUnit::Milliseconds)
        } else if symbol[0] == 'u' {
            Some(TimeUnit::Microseconds)
        } else if symbol[0] == 'n' {
            Some(TimeUnit::Nanoseconds)
        } else {
            None
        }
    } else {
        None
    }
}

/// The unit whose symbol stands in `bytes` from `from` up to `to`.
pub fn unit_at(bytes: &[u8], from: usize, to: usize) -> (r: Option<TimeUnit>)
    requires
        from <= to <= bytes@.len(),
    ensures
        r == unit_of_symbol(chars_of(bytes@).subrange(from as int, to as int)),
{
    let ghost symbol = chars_of(bytes@).subrange(from as int, to as int);
    if to - from == 1 {
        let first = bytes[from];
        proof {
            assert(symbol[0] == first as char);
        }
        if first == 89 {
            Some(TimeUnit::Years)
        } else if first == 77 {
            Some(TimeUnit::Months)
        } else if first == 87 {
            Some(TimeUnit::Weeks)
        } else if first == 68 {
            Some(TimeUnit::Days)
        } else if first == 104 {
            Some(TimeUnit::Hours)
        } else if first == 109 {
            Some(TimeUnit::Minutes)
        } else if first == 115 {
            Some(TimeUnit::Seconds)
        } else {
            None
        }
    } else if to - from == 2 && bytes[from + 1] == 115 {
        let first = bytes[from];
        proof {
            assert(symbol[0] == first as char);
            assert(symbol[1] == bytes@[from + 1] as char);
        }
        if first == 109 {
            Some(TimeUnit::Milliseconds)
        } else if first == 117 {
            Some(TimeUnit::Microseconds)
        } else if first == 110 {
            Some(TimeUnit::Nanoseconds)
        } else {
            None
        }
    } else {
        proof {
            if to - from == 2 {
                assert(symbol[1] == bytes@[from + 1] as char);
            }
        }
        None
    }
}

impl TimeUnit {
    /// The unit that `symbol` stands for.
    pub fn from_symbol(symbol: &str) -> (r: Option<TimeUnit>)
        ensures
            r == unit_of_symbol(symbol@),
    {
        match ascii_bytes(symbol) {
            Some(bytes) => {
                proof {
                    assert(chars_of(bytes@).subrange(0, bytes@.len() as int) =~= symbol@);
                }
                unit_at(bytes, 0, bytes.len())
            },
            None => None,
        }
    }

    /// The nanoseconds in one unit; `None` for weeks, months and years, which
    /// have no bin width.
    pub fn nanoseconds(&self) -> (r: Option<i64>)
        ensures
            match r {
                Some(n) => unit_nanoseconds(*self) == Some(n as int),
                None => unit_nanoseconds(*self) is None,
            },
    {
        match self {
            TimeUnit::Nanoseconds => Some(1),
            TimeUnit::Microseconds => Some(1_000),
            TimeUnit::Milliseconds => Some(1_000_000),
            TimeUnit::Seconds => Some(1_000_000_000),
            TimeUnit::Minutes => Some(60_000_000_000),
            TimeUnit::Hours => Some(3_600_000_000_000),
            TimeUnit::Days => Some(86_400_000_000_000),
            TimeUnit::Weeks => None,
            TimeUnit::Months => None,
            TimeUnit::Years => None,
        }
    }
}

/// Why a text is no time period.
#[derive(Clone, Copy, Debug, PartialEq, Eq)]
pub enum TimePeriodError {
    /// The text is not a number followed by a unit.
    Invalid,
    /// The quantity does not fit in 64 bits.
    InvalidQuantity,
    /// The unit is none of the known symbols.
    InvalidUnit,
}

/// The time period that `text` stands for: a decimal quantity and the symbol
/// of a unit, with optional space around each.
pub open spec fn parsed_period(text: Seq<char>) -> Result<TimePeriod, TimePeriodError> {
    match amount_shape(text) {
        None => Err(TimePeriodError::Invalid),
        Some((a, b, c, d)) => {
            if decimal(text.subrange(a, b)) > u64::MAX {
                Err(TimePeriodError::InvalidQuantity)
            } else {
                match unit_of_symbol(text.subrange(c, d)) {
                    None => Err(TimePeriodError::InvalidUnit),
                    Some(unit) => Ok(
                        TimePeriod { quantity: decimal(text.subrange(a, b)) as u64, unit },
                    ),
                }
            }
        },
    }
}

impl TimePeriod {
    /// Reads a time period such as `15 m` or `100ms`.
    pub fn parse(text: &str) -> (r: Result<TimePeriod, TimePeriodError>)
        ensures
            r == parsed_period(text@),
    {
        let bytes = match ascii_bytes(text) {
            Some(bytes) => bytes,
            None => {
                proof {
                    if amount_shape(text@) is Some {
                        lemma_shape_is_ascii(text@);
                    }
                }
                return Err(TimePeriodError::Invalid);
            },
        };
        let (a, b, c, d) = match scan_amount(bytes) {
            Some(found) => found,
            None => {
                return Err(TimePeriodError::Invalid);
            },
        };
        let quantity = match decimal_value(bytes, a, b) {
            Some(quantity) => quantity,
            None => {
                return Err(TimePeriodError::InvalidQuantity);
            },
        };
        match unit_at(bytes, c, d) {
            Some(unit) => Ok(TimePeriod { quantity, unit }),
            None => Err(TimePeriodError::InvalidUnit),
        }
    }

    /// The length of the period in nanoseconds: `None` where the unit has no
    /// fixed length.
    pub open spec fn width(&self) -> Option<int> {
        match unit_nanoseconds(self.unit) {
            Some(n) => Some(self.quantity * n),
            None => None,
        }
    }

    /// The period can be the width of a bin: its unit has a fixed length and
    /// its length is at least one nanosecond and fits in 64 bits.
    pub open spec fn is_bin_width(&self) -> bool {
        self.width() matches Some(w) && 1 <= w <= i64::MAX
    }

    /// The period's length in nanoseconds, if it can be the width of a bin.
    pub fn bin_width(&self) -> (r: Option<i64>)
        ensures
            r is Some <==> self.is_bin_width(),
            r matches Some(w) ==> self.width() == Some(w as int),
    {
        let per_unit = match self.unit.nanoseconds() {
            Some(n) => n,
            None => {
                return None;
            },
        };
        if self.quantity == 0 || self.quantity > i64::MAX as u64 {
            proof {
                assert(self.quantity * per_unit >= self.quantity) by (nonlinear_arith)
                    requires
                        per_unit >= 1,
                ;
            }
            return None;
        }
        let quantity = self.quantity as i64;
        match quantity.checked_mul(per_unit) {
            Some(w) => {
                proof {
                    assert(quantity * per_unit >= 1) by (nonlinear_arith)
                        requires
                            quantity >= 1,
                            per_unit >= 1,
                    ;
                }
                Some(w)
            },
            None => {
                proof {
                    assert(quantity * per_unit >= 1) by (nonlinear_arith)
                        requires
                            quantity >= 1,
                            per_unit >= 1,
                    ;
                }
                None
            },
        }
    }
}

} // verus!
