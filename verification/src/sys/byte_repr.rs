//! The byte representation of platform-native string values.
//!
//! Rather than reinterpreting storage of foreign string types, the crate
//! works with [`NativeString`], an explicit owned byte text, and converts
//! only through the documented functions of the [`ByteRepr`] and
//! [`ByteBufRepr`] traits.

use vstd::prelude::*;

verus! {

/// A value that can be viewed, borrowed, as raw bytes.
pub trait ByteRepr {
    /// The byte content the value stands for.
    spec fn repr_bytes(&self) -> Seq<u8>;

    /// Borrows the value's bytes.
    fn as_bytes(&self) -> (r: &[u8])
        ensures
            r@ == self.repr_bytes(),
    ;

    /// Whether the value holds no bytes.
    fn is_empty(&self) -> (r: bool)
        ensures
            r == (self.repr_bytes().len() == 0),
    ;
}

/// A value that can be converted, owned, to and from a byte buffer.
pub trait ByteBufRepr: Sized {
    /// The byte content the value stands for.
    spec fn buf_bytes(&self) -> Seq<u8>;

    /// Builds the value that stands for `bytes`.
    fn from_bytes(bytes: Vec<u8>) -> (r: Self)
        ensures
            r.buf_bytes() == bytes@,
    ;

    /// Releases the value's bytes.
    fn into_bytes(self) -> (r: Vec<u8>)
        ensures
            r@ == self.buf_bytes(),
    ;

    /// Borrows the value's byte buffer.
    fn as_bytes(&self) -> (r: &Vec<u8>)
        ensures
            r@ == self.buf_bytes(),
    ;

    /// Whether the value holds no bytes.
    fn is_empty(&self) -> (r: bool)
        ensures
            r == (self.buf_bytes().len() == 0),
    ;
}

/// An owned platform-native string, held as the raw byte text it denotes.
/// Content is opaque: no encoding is assumed or validated.
pub struct NativeString {
    bytes: Vec<u8>,
}

impl View for NativeString {
    type V = Seq<u8>;

    closed spec fn view(&self) -> Seq<u8> {
        self.bytes@
    }
}

impl NativeString {
    /// Constructs an empty native string.
    pub fn new() -> (r: Self)
        ensures
            r@ == Seq::<u8>::empty(),
    {
        NativeString { bytes: Vec::new() }
    }

    /// The number of bytes held.
    pub fn len(&self) -> (r: usize)
        ensures
            r == self@.len(),
    {
        self.bytes.len()
    }

    /// Appends one byte.
    pub fn push_byte(&mut self, b: u8)
        ensures
            final(self)@ == old(self)@.push(b),
    {
        self.bytes.push(b);
    }

    /// Appends the bytes of `other`.
    pub fn push_bytes(&mut self, other: &[u8])
        ensures
            final(self)@ == old(self)@ + other@,
    {
        self.bytes.extend_from_slice(other);
        proof {
            assert(self.bytes@ =~= old(self)@ + other@);
        }
    }

    /// Shortens the text to its first `len` bytes.
    pub fn truncate(&mut self, len: usize)
        requires
            len <= old(self)@.len(),
        ensures
            final(self)@ == old(self)@.take(len as int),
    {
        self.bytes.truncate(len);
    }

    /// Borrows the byte range `[start, end)` of the text.
    pub fn subslice(&self, start: usize, end: usize) -> (r: &[u8])
        requires
            start <= end <= self@.len(),
        ensures
            r@ == self@.subrange(start as int, end as int),
    {
        vstd::slice::slice_subrange(self.bytes.as_slice(), start, end)
    }

    /// Asks the buffer to make room for `additional` more bytes; the text
    /// itself is unchanged.
    pub fn reserve(&mut self, additional: usize)
        ensures
            final(self)@ == old(self)@,
    {
        self.bytes.reserve(additional);
    }
}

impl Clone for NativeString {
    /// An independent copy holding the same bytes.
    fn clone(&self) -> (r: Self)
        ensures
            r@ == self@,
    {
        let r = NativeString { bytes: self.bytes.clone() };
        proof {
            assert(r.bytes@ =~= self.bytes@);
        }
        r
    }
}

impl ByteRepr for NativeString {
    open spec fn repr_bytes(&self) -> Seq<u8> {
        self@
    }

    fn as_bytes(&self) -> (r: &[u8]) {
        self.bytes.as_slice()
    }

    fn is_empty(&self) -> (r: bool) {
        self.bytes.len() == 0
    }
}

impl ByteBufRepr for NativeString {
    open spec fn buf_bytes(&self) -> Seq<u8> {
        self@
    }

    fn from_bytes(bytes: Vec<u8>) -> (r: Self) {
        NativeString { bytes }
    }

    fn into_bytes(self) -> (r: Vec<u8>) {
        self.bytes
    }

    fn as_bytes(&self) -> (r: &Vec<u8>) {
        &self.bytes
    }

    fn is_empty(&self) -> (r: bool) {
        self.bytes.len() == 0
    }
}

} // verus!
