//! A complex number with unsigned components.

use crate::decimal::{decimal, push_decimal};
use vstd::prelude::*;
use vstd::string::StringExecFns;

verus! {

/// A pair of unsigned components, a real and an imaginary one.
pub struct Complex {
    pub real: u32,
    pub imaginary: u32,
}

/// How a value with the components `re` and `im` is written: the two
/// numbers in decimal, ` + ` between them and `i` behind the second.
pub open spec fn complex_text(re: u32, im: u32) -> Seq<char> {
    decimal(re as nat) + seq![' ', '+', ' '] + decimal(im as nat) + seq!['i']
}

impl Complex {
    /// The value with the components `re` and `im`.
    pub fn new(re: u32, im: u32) -> (c: Complex)
        ensures
            c.real == re,
            c.imaginary == im,
    {
        Complex { real: re, imaginary: im }
    }

    /// Adds `other` to this value, component by component. Neither sum may
    /// pass `u32::MAX`.
    pub fn add(&mut self, other: &Complex)
        requires
            old(self).real + other.real <= u32::MAX,
            old(self).imaginary + other.imaginary <= u32::MAX,
        ensures
            final(self).real == old(self).real + other.real,
            final(self).imaginary == old(self).imaginary + other.imaginary,
    {
        self.real += other.real;
        self.imaginary += other.imaginary;
    }

    /// The value as text, such as `3 + 4i`.
    pub fn to_string(&self) -> (text: String)
        ensures
            text@ == complex_text(self.real, self.imaginary),
    {
        proof {
            reveal_strlit(" + ");
            reveal_strlit("i");
        }
        let mut text = String::new();
        push_decimal(&mut text, self.real);
        text.append(" + ");
        push_decimal(&mut text, self.imaginary);
        text.append("i");
        text
    }
}

} // verus!
