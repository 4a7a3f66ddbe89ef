//! Writing single elements into two-dimensional, grid-like buffers and
//! rendering such buffers as text.
//!
//! A position is `(x, y)`: `x` is the column, `y` is the row.
use vstd::prelude::*;
use vstd::utf8::*;
use std::string::FromUtf8Error;

pub mod art;
pub mod fixed;
pub mod lines;
pub mod nested;
pub mod render;
pub mod stamp;
pub mod string_specs;
pub mod text;
pub mod text_lemmas;

verus! {

/// A buffer that takes one element at a position.
///
/// What a write does is up to the implementor: it may grow the buffer to
/// reach the position, or rule positions out through [`GridWriter::accepts`].
/// An implementor that overrides neither spec function makes no promise.
pub trait GridWriter {
    /// The type of the elements in the grid.
    type Element;

    /// Whether the buffer takes a write at `position`.
    open spec fn accepts(&self, position: (usize, usize)) -> bool {
        true
    }

    /// Whether `after` is this buffer once `element` has been written at `position`.
    open spec fn wrote(&self, position: (usize, usize), element: Self::Element, after: &Self) -> bool {
        true
    }

    /// Sets the element at the given `(x, y)` position.
    fn set(&mut self, position: (usize, usize), element: Self::Element)
        requires
            old(self).accepts(position),
        ensures
            old(self).wrote(position, element, final(self)),
    ;
}

/// A buffer that can be rendered as text, rows joined by line breaks.
pub trait DisplayGrid {
    /// Whether `bytes` is a rendering of this buffer.
    ///
    /// An implementor that does not override it makes no promise about what
    /// it writes.
    open spec fn renders(&self, bytes: Seq<u8>) -> bool {
        true
    }

    /// Returns the rendering as a string, or the decoding error if the
    /// rendering is not UTF-8.
    fn to_string(&self) -> (r: Result<String, FromUtf8Error>)
        ensures
            match r {
                Ok(s) => self.renders(encode_utf8(s@)),
                Err(_) => exists|b: Seq<u8>| #[trigger] self.renders(b) && !valid_utf8(b),
            },
    {
        let mut output: Vec<u8> = Vec::new();
        self.write_to(&mut output);
        proof {
            let b = choose|b: Seq<u8>| #[trigger] self.renders(b) && output@ == Seq::<u8>::empty() + b;
            assert(output@ =~= b);
        }
        String::from_utf8(output)
    }

    /// Appends a rendering of the buffer to `stream`.
    fn write_to(&self, stream: &mut Vec<u8>)
        ensures
            exists|b: Seq<u8>| #[trigger] self.renders(b) && final(stream)@ == old(stream)@ + b,
    ;
}

} // verus!
