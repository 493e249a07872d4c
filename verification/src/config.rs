//! Comparison policy: an immutable record with four independent axes.

use vstd::prelude::*;

verus! {

/// Mode for how two values are compared.
#[derive(Debug, Copy, Clone, PartialEq, Eq, Structural)]
pub enum CompareMode {
    /// The two values do not have to be exactly equal.  The second operand is
    /// the expected pattern; it is only required to be contained inside the
    /// first operand (the actual value), which may carry extra object keys or
    /// trailing array elements.
    Inclusive,
    /// The two values must be exactly equal; the operands are symmetric peers.
    Strict,
}

/// Whether the order of array elements matters.
#[derive(Debug, Copy, Clone, PartialEq, Eq, Structural)]
pub enum ArraySortingMode {
    /// Position matters: arrays are compared element by element by index.
    Consider,
    /// Order is irrelevant: every expected element must have an equivalent
    /// element somewhere in the actual array.  Only meaningful together with
    /// [`CompareMode::Inclusive`].
    Ignore,
}

/// How numbers of different kinds (integer vs. floating-point) are compared.
#[derive(Debug, Copy, Clone, PartialEq, Eq, Structural)]
pub enum NumericMode {
    /// Numbers of different kinds are never equal, even with the same
    /// magnitude.
    Strict,
    /// All numbers are converted to 64-bit floating point (rounding to
    /// nearest, ties to even) before comparison.
    AssumeFloat,
}

/// How floating-point numbers are compared.  The epsilon threshold is carried
/// as the IEEE 754 bit pattern of a non-negative `f64` (what `f64::to_bits`
/// returns), since the comparison itself is performed exactly.
#[derive(Debug, Copy, Clone, PartialEq, Eq, Structural)]
pub enum FloatCompareMode {
    /// Floats are equal only when they denote the same real number.
    Exact,
    /// Floats are equal when they differ by at most this threshold.
    Epsilon(u64),
}

impl FloatCompareMode {
    /// The epsilon, if any, is the bit pattern of a non-negative `f64`:
    /// sign bit clear and not a NaN (exponent all ones demands a zero
    /// fraction, which is positive infinity and admits every difference).
    pub open spec fn wf(self) -> bool {
        match self {
            FloatCompareMode::Exact => true,
            FloatCompareMode::Epsilon(bits) => bits / 0x8000_0000_0000_0000u64 == 0
                && ((bits / 0x10_0000_0000_0000u64) % 0x800 == 0x7ff ==> bits
                % 0x10_0000_0000_0000u64 == 0),
        }
    }
}

/// Configuration for how values are compared.
#[derive(Debug, Clone, PartialEq, Eq, Structural)]
pub struct Config {
    /// Whether array ordering is taken into consideration.
    pub array_sorting_mode: ArraySortingMode,
    /// How values are compared: strict equality or inclusive containment.
    pub compare_mode: CompareMode,
    /// How numbers of different kinds are compared.
    pub numeric_mode: NumericMode,
    /// How floating-point numbers are compared.
    pub float_compare_mode: FloatCompareMode,
}

impl Config {
    /// A well-formed configuration: strict comparison is incompatible with
    /// ignoring array order (an unsatisfiable policy combination), and the
    /// epsilon threshold, if any, is a non-negative float.
    pub open spec fn wf(self) -> bool {
        &&& !(self.compare_mode == CompareMode::Strict && self.array_sorting_mode
            == ArraySortingMode::Ignore)
        &&& self.float_compare_mode.wf()
    }

    /// Create a new configuration using the given [`CompareMode`].
    ///
    /// The other axes take their defaults: array order is considered, numeric
    /// comparison is strict, float comparison is exact.
    pub fn new(compare_mode: CompareMode) -> (c: Self)
        ensures
            c == (Config {
                array_sorting_mode: ArraySortingMode::Consider,
                compare_mode: compare_mode,
                numeric_mode: NumericMode::Strict,
                float_compare_mode: FloatCompareMode::Exact,
            }),
            c.wf(),
    {
        Config {
            array_sorting_mode: ArraySortingMode::Consider,
            compare_mode,
            numeric_mode: NumericMode::Strict,
            float_compare_mode: FloatCompareMode::Exact,
        }
    }

    /// Change the configuration's numeric mode.
    pub fn numeric_mode(self, numeric_mode: NumericMode) -> (c: Self)
        ensures
            c == (Config { numeric_mode, ..self }),
    {
        Config { numeric_mode, ..self }
    }

    /// Change the configuration's compare mode.
    ///
    /// Strict comparison cannot be combined with ignored array ordering.
    pub fn compare_mode(self, compare_mode: CompareMode) -> (c: Self)
        requires
            !(compare_mode == CompareMode::Strict && self.array_sorting_mode
                == ArraySortingMode::Ignore),
        ensures
            c == (Config { compare_mode, ..self }),
    {
        Config { compare_mode, ..self }
    }

    /// Change the configuration's float compare mode.
    pub fn float_compare_mode(self, float_compare_mode: FloatCompareMode) -> (c: Self)
        ensures
            c == (Config { float_compare_mode, ..self }),
    {
        Config { float_compare_mode, ..self }
    }

    /// Configure the array sorting mode: `true` means element order matters,
    /// `false` means it is ignored.
    ///
    /// Ignoring array order is an unsatisfiable policy under strict
    /// comparison, so that combination is rejected here, before any
    /// comparison runs.
    pub fn consider_array_sorting(self, consider: bool) -> (c: Self)
        requires
            !(self.compare_mode == CompareMode::Strict && !consider),
        ensures
            c == (Config {
                array_sorting_mode: if consider {
                    ArraySortingMode::Consider
                } else {
                    ArraySortingMode::Ignore
                },
                ..self
            }),
    {
        if consider {
            Config { array_sorting_mode: ArraySortingMode::Consider, ..self }
        } else {
            Config { array_sorting_mode: ArraySortingMode::Ignore, ..self }
        }
    }

    /// Whether this configuration is well formed; what [`Config::wf`] says,
    /// decided executably so that unverified callers can check before calling
    /// the engine.
    pub fn is_valid(&self) -> (r: bool)
        ensures
            r == self.wf(),
    {
        let clash = matches!(self.compare_mode, CompareMode::Strict) && matches!(
            self.array_sorting_mode,
            ArraySortingMode::Ignore,
        );
        let eps_ok = match self.float_compare_mode {
            FloatCompareMode::Exact => true,
            FloatCompareMode::Epsilon(bits) => bits / 0x8000_0000_0000_0000u64 == 0 && !((bits
                / 0x10_0000_0000_0000u64) % 0x800 == 0x7ff && bits % 0x10_0000_0000_0000u64 != 0),
        };
        !clash && eps_ok
    }
}

} // verus!
