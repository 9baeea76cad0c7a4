//! Validation, rewrite and parse errors.

use vstd::prelude::*;

verus! {

use crate::rational::Complex;
use crate::rational::Rational;

/// Validation and rewrite errors of the circuit core.
///
/// The `Invalid*` variants carry the rejected value. `NumericOverflow`
/// reports an exact-arithmetic result whose lowest-terms form does not fit
/// the machine representation.
#[derive(Debug, Clone, PartialEq)]
pub enum CircuitError {
    InvalidAngularFrequency(Rational),
    InvalidResistance(Rational),
    InvalidInductance(Rational),
    InvalidCapacitance(Rational),
    InvalidImpedance(Complex),
    NumericOverflow,
}

impl CircuitError {
    /// The text of [`CircuitError::message`], per variant.
    pub open spec fn message_spec(&self) -> Seq<char> {
        match self {
            CircuitError::InvalidAngularFrequency(_) => {
                "invalid angular frequency (must be >= 0)"@
            },
            CircuitError::InvalidResistance(_) => "invalid resistance (must be > 0)"@,
            CircuitError::InvalidInductance(_) => "invalid inductance (must be > 0)"@,
            CircuitError::InvalidCapacitance(_) => "invalid capacitance (must be > 0)"@,
            CircuitError::InvalidImpedance(_) => {
                "invalid impedance (negative real part with zero imaginary part)"@
            },
            CircuitError::NumericOverflow => {
                "exact arithmetic overflow (value does not fit the representation)"@
            },
        }
    }

    /// A human-readable description of the error.
    pub fn message(&self) -> (r: String)
        ensures
            r@ == self.message_spec(),
    {
        match self {
            CircuitError::InvalidAngularFrequency(_) => {
                "invalid angular frequency (must be >= 0)".to_owned()
            },
            CircuitError::InvalidResistance(_) => "invalid resistance (must be > 0)".to_owned(),
            CircuitError::InvalidInductance(_) => "invalid inductance (must be > 0)".to_owned(),
            CircuitError::InvalidCapacitance(_) => "invalid capacitance (must be > 0)".to_owned(),
            CircuitError::InvalidImpedance(_) => {
                "invalid impedance (negative real part with zero imaginary part)".to_owned()
            },
            CircuitError::NumericOverflow => {
                "exact arithmetic overflow (value does not fit the representation)".to_owned()
            },
        }
    }
}

/// A line-numbered parse diagnostic. Line numbers start at 1; line 0 marks
/// a whole-input failure.
#[derive(Debug, Clone, PartialEq)]
pub struct ParseError {
    pub line: usize,
    pub message: String,
}

impl ParseError {
    /// Wraps a core validation error, without a line number.
    pub fn from_circuit(value: CircuitError) -> (r: ParseError)
        ensures
            r.line == 0,
            r.message@ == value.message_spec(),
    {
        ParseError { line: 0, message: value.message() }
    }
}

} // verus!
