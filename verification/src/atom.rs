//! The capability a caller's leaf values give to the formatter.

use std::fmt::Error;
use vstd::prelude::*;

verus! {

/// `core::fmt::Error`, the failure an atom reports when it cannot be rendered.
/// It is carried from the atom to the caller and never inspected.
#[verifier::external_type_specification]
#[verifier::external_body]
pub struct ExError(Error);

/// What the formatter reads from an atom.
pub struct AtomModel {
    /// The printed width in monospace columns.
    pub width: nat,
    /// The indentation the atom asks for when it is the head of a list.
    pub custom_indentation: Option<nat>,
    /// The rendered text, or the failure to render.
    pub text: Result<Seq<char>, Error>,
}

/// A primitive Lisp value.
///
/// The three operations are observations of one value: each returns what
/// [`Atom::model`] says of `self`. An implementation verified with Verus
/// proves this; any other implementation is trusted to answer the same way
/// every time it is asked.
pub trait Atom {
    /// The mathematical description of this atom.
    spec fn model(&self) -> AtomModel;

    /// The width of the atom when displayed with a monospace font.
    fn width(&self) -> (width: usize)
        ensures
            width == self.model().width,
    ;

    /// How much to indent the rest of the list when this is used as the head.
    /// Mainly useful for special forms.
    ///
    /// ```lisp
    /// (long-name arg-1
    ///   less-indented-arg2)
    /// ```
    fn custom_indentation(&self) -> (indentation: Option<usize>)
        ensures
            match indentation {
                Some(n) => self.model().custom_indentation == Some(n as nat),
                None => self.model().custom_indentation is None,
            },
    ;

    /// The text of the atom, or the error that kept it from being written.
    fn render(&self) -> (text: Result<String, Error>)
        ensures
            match text {
                Ok(rendered) => self.model().text == Ok::<Seq<char>, Error>(rendered@),
                Err(error) => self.model().text == Err::<Seq<char>, Error>(error),
            },
    ;
}

} // verus!
