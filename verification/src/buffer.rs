//! Growable byte store with append and consume operations.
//!
//! One instance exists per connection per direction.  Bytes arriving from the
//! transport are appended at the end; once a request head and its body have
//! been retired, their bytes are discarded from the front with [`ByteBuffer::consume`],
//! which invalidates every offset pair handed out before the shift point.

use vstd::prelude::*;

verus! {

/// Contiguous byte store: append at the end, consume from the front.
#[derive(Debug)]
pub struct ByteBuffer {
    data: Vec<u8>,
}

impl View for ByteBuffer {
    type V = Seq<u8>;

    closed spec fn view(&self) -> Seq<u8> {
        self.data@
    }
}

impl ByteBuffer {
    /// Empty buffer.
    pub fn new() -> (b: ByteBuffer)
        ensures
            b@ == Seq::<u8>::empty(),
    {
        ByteBuffer { data: Vec::new() }
    }

    /// Number of buffered, unconsumed bytes.
    pub fn len(&self) -> (n: usize)
        ensures
            n == self@.len(),
    {
        self.data.len()
    }

    /// True when no unconsumed bytes remain.
    pub fn is_empty(&self) -> (e: bool)
        ensures
            e == (self@.len() == 0),
    {
        self.data.len() == 0
    }

    /// Contiguous view of all currently buffered, unconsumed bytes.
    pub fn as_slice(&self) -> (s: &[u8])
        ensures
            s@ == self@,
    {
        self.data.as_slice()
    }

    /// Byte at offset `i` from the current start.
    pub fn get(&self, i: usize) -> (b: u8)
        requires
            i < self@.len(),
        ensures
            b == self@[i as int],
    {
        self.data[i]
    }

    /// Append a chunk of bytes at the end.
    pub fn append(&mut self, bytes: &[u8])
        ensures
            final(self)@ == old(self)@ + bytes@,
    {
        let n = bytes.len();
        let mut i: usize = 0;
        assert(old(self)@ + bytes@.take(0) =~= old(self)@);
        while i < n
            invariant
                i <= n,
                n == bytes@.len(),
                self.data@ == old(self)@ + bytes@.take(i as int),
            decreases n - i,
        {
            let b = *vstd::slice::slice_index_get(bytes, i);
            self.data.push(b);
            assert(self.data@ =~= old(self)@ + bytes@.take(i + 1));
            i = i + 1;
        }
        assert(self.data@ =~= old(self)@ + bytes@);
    }

    /// Append a single byte at the end.
    pub fn push(&mut self, byte: u8)
        ensures
            final(self)@ == old(self)@.push(byte),
    {
        self.data.push(byte);
    }

    /// Discard the first `n` bytes; offsets previously handed out become
    /// relative to the old start and are invalid afterwards.
    pub fn consume(&mut self, n: usize)
        requires
            n <= old(self)@.len(),
        ensures
            final(self)@ == old(self)@.skip(n as int),
    {
        let len = self.data.len();
        let mut rest: Vec<u8> = Vec::new();
        let mut i: usize = n;
        assert(rest@ =~= self.data@.subrange(n as int, n as int));
        while i < len
            invariant
                n <= i <= len,
                len == self.data@.len(),
                self.data@ == old(self)@,
                rest@ == self.data@.subrange(n as int, i as int),
            decreases len - i,
        {
            let b = self.data[i];
            rest.push(b);
            assert(rest@ =~= self.data@.subrange(n as int, i + 1));
            i = i + 1;
        }
        self.data = rest;
        assert(self.data@ =~= old(self)@.skip(n as int));
    }
}

} // verus!
