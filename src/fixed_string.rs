//! A text value that travels as exactly N raw bytes, N being fixed by the
//! schema rather than by a length prefix.
//!
//! In structured interchange a value of this type is read either as a bare
//! string or as an object with a single `FixedString` field holding the
//! string; it is always written in the object form.

use vstd::prelude::*;

verus! {

/// The name of the single field of the object form.
pub const FIELD_NAME: &'static str = "FixedString";

/// A fixed-width text field.
#[derive(Debug, Clone, PartialEq, Eq, PartialOrd, Ord, Hash)]
pub struct FixedString {
    pub string: String,
}

/// A value as read from structured interchange, sorted by shape.
#[derive(Debug)]
pub enum WireText {
    /// A bare string.
    Bare(String),
    /// An object whose `FixedString` field holds this string.
    Wrapped(String),
    /// An object without a `FixedString` field.
    WrappedWithoutField,
    /// Anything else, or an object whose field is not a string.
    NotText,
}

/// Why a value could not be read as a fixed-width text field.
#[derive(Debug, Clone, Copy, PartialEq, Eq, Structural)]
pub enum FixedStringError {
    /// An object without a `FixedString` field.
    MissingField,
    /// The value holds no string where one is expected.
    NotText,
}

impl FixedString {
    pub fn new(string: String) -> (r: FixedString)
        ensures
            r.string@ == string@,
    {
        FixedString { string }
    }

    /// Reads a value in either accepted form.
    pub fn from_wire(w: WireText) -> (r: Result<FixedString, FixedStringError>)
        ensures
            match w {
                WireText::Bare(s) => r matches Ok(f) && f.string@ == s@,
                WireText::Wrapped(s) => r matches Ok(f) && f.string@ == s@,
                WireText::WrappedWithoutField => r == Err::<FixedString, _>(
                    FixedStringError::MissingField,
                ),
                WireText::NotText => r == Err::<FixedString, _>(FixedStringError::NotText),
            },
    {
        match w {
            WireText::Bare(s) => Ok(FixedString::new(s)),
            WireText::Wrapped(s) => Ok(FixedString::new(s)),
            WireText::WrappedWithoutField => Err(FixedStringError::MissingField),
            WireText::NotText => Err(FixedStringError::NotText),
        }
    }

    /// The one form this value is written in: the object form, as its field
    /// name and the string it holds.
    pub fn to_wire(&self) -> (r: (&'static str, &str))
        ensures
            r.0@ == FIELD_NAME@,
            r.1@ == self.string@,
    {
        (FIELD_NAME, self.string.as_str())
    }
}

impl From<String> for FixedString {
    fn from(string: String) -> (r: FixedString) {
        FixedString { string }
    }
}

impl vstd::std_specs::convert::FromSpecImpl<String> for FixedString {
    open spec fn obeys_from_spec() -> bool {
        true
    }

    open spec fn from_spec(v: String) -> FixedString {
        FixedString { string: v }
    }
}

impl<'a> From<&'a str> for FixedString {
    fn from(s: &'a str) -> (r: FixedString)
        ensures
            r.string@ == s@,
    {
        FixedString { string: s.to_string() }
    }
}

impl<'a> vstd::std_specs::convert::FromSpecImpl<&'a str> for FixedString {
    open spec fn obeys_from_spec() -> bool {
        false
    }

    open spec fn from_spec(v: &'a str) -> FixedString {
        arbitrary()
    }
}

impl core::str::FromStr for FixedString {
    type Err = FixedStringError;

    fn from_str(s: &str) -> (r: Result<FixedString, FixedStringError>)
        ensures
            r matches Ok(f) && f.string@ == s@,
    {
        Ok(FixedString { string: s.to_string() })
    }
}

} // verus!
