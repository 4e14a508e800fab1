use vstd::prelude::*;

use crate::error::{Error, ErrorType};

verus! {

/// The indentation width, in spaces, a decoder assumes when none is given.
pub const DEFAULT_INDENT_SIZE: usize = 2;

/// Options controlling how a TOON document is decoded.
///
/// The default is what the spec asks of a conforming decoder: strict
/// validation with two space indentation.
#[derive(Clone, Copy, Debug, PartialEq, Eq, Hash, Structural)]
pub struct DecodeOptions {
    strict: bool,
    indent_size: usize,
}

impl DecodeOptions {
    /// Whether the document is decoded strictly.
    pub closed spec fn spec_strict(self) -> bool {
        self.strict
    }

    /// The indentation width in spaces.
    pub closed spec fn spec_indent_size(self) -> usize {
        self.indent_size
    }

    /// Every value of the type has a non-zero indentation width.
    #[verifier::type_invariant]
    spec fn wf(self) -> bool {
        self.indent_size >= 1
    }

    /// Two options are equal exactly when they agree on strictness and on the
    /// indentation width; so a builder and a setter that leave the same
    /// settings behind give equal options.
    pub proof fn law_equal_iff_same_settings(a: DecodeOptions, b: DecodeOptions)
        ensures
            (a == b) <==> (a.spec_strict() == b.spec_strict() && a.spec_indent_size() == b.spec_indent_size()),
    {
    }

    /// Spec defaults: strict validation, two space indentation.
    pub fn new() -> (o: DecodeOptions)
        ensures
            o.spec_strict(),
            o.spec_indent_size() == DEFAULT_INDENT_SIZE,
    {
        DecodeOptions { strict: true, indent_size: DEFAULT_INDENT_SIZE }
    }

    /// Shorthand for `DecodeOptions::new().with_strict(false)`.
    pub fn lenient() -> (o: DecodeOptions)
        ensures
            !o.spec_strict(),
            o.spec_indent_size() == DEFAULT_INDENT_SIZE,
    {
        DecodeOptions::new().with_strict(false)
    }

    /// Sets whether the document is decoded strictly.
    pub fn with_strict(self, strict: bool) -> (o: DecodeOptions)
        ensures
            o.spec_strict() == strict,
            o.spec_indent_size() == self.spec_indent_size(),
    {
        proof { use_type_invariant(&self); }
        DecodeOptions { strict, indent_size: self.indent_size }
    }

    /// Sets the indentation width in spaces; a width of `0` is refused.
    pub fn with_indent_size(self, indent_size: usize) -> (r: Result<DecodeOptions, Error>)
        ensures
            indent_size == 0 <==> r is Err,
            r matches Ok(o) ==> o.spec_indent_size() == indent_size
                && o.spec_strict() == self.spec_strict(),
            r matches Err(e) ==> e.error == ErrorType::InvalidIndentSize,
    {
        let mut s = self;
        match s.set_indent_size(indent_size) {
            Ok(()) => Ok(s),
            Err(e) => Err(e),
        }
    }

    /// Sets whether the document is decoded strictly, in place.
    pub fn set_strict(&mut self, strict: bool)
        ensures
            final(self).spec_strict() == strict,
            final(self).spec_indent_size() == old(self).spec_indent_size(),
    {
        proof { use_type_invariant(&*self); }
        self.strict = strict;
    }

    /// Sets the indentation width in spaces, in place; a width of `0` is
    /// refused and leaves the options untouched.
    pub fn set_indent_size(&mut self, indent_size: usize) -> (r: Result<(), Error>)
        ensures
            indent_size == 0 <==> r is Err,
            r is Ok ==> final(self).spec_indent_size() == indent_size
                && final(self).spec_strict() == old(self).spec_strict(),
            r is Err ==> *final(self) == *old(self),
            r matches Err(e) ==> e.error == ErrorType::InvalidIndentSize,
    {
        if indent_size == 0 {
            return Err(Error::generic(ErrorType::InvalidIndentSize));
        }
        self.indent_size = indent_size;
        Ok(())
    }

    /// Whether the document is decoded strictly.
    pub fn strict(self) -> (b: bool)
        ensures
            b == self.spec_strict(),
    {
        self.strict
    }

    /// The indentation width in spaces.
    pub fn indent_size(self) -> (n: usize)
        ensures
            n == self.spec_indent_size(),
            n >= 1,
    {
        proof { use_type_invariant(&self); }
        self.indent_size
    }
}

impl Default for DecodeOptions {
    fn default() -> (o: DecodeOptions)
        ensures
            o.spec_strict(),
            o.spec_indent_size() == DEFAULT_INDENT_SIZE,
    {
        DecodeOptions::new()
    }
}

} // verus!
