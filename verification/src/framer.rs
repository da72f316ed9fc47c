//! Line framing: request lines end with CR LF and nothing else ends them.

use vstd::prelude::*;

verus! {

/// Byte value of a carriage return.
pub const CR: u8 = 13;

/// Byte value of a line feed.
pub const LF: u8 = 10;

/// Whether `byte`, arriving after the bytes in `pending`, ends a line.
///
/// Only a line feed directly behind a carriage return does.
pub open spec fn completes_line(pending: Seq<u8>, byte: u8) -> bool {
    byte == LF && pending.len() > 0 && pending.last() == CR
}

/// Accumulates the bytes of a connection until a request line is complete.
pub struct LineFramer {
    buffer: Vec<u8>,
}

impl View for LineFramer {
    type V = Seq<u8>;

    /// The bytes received since the last complete line.
    closed spec fn view(&self) -> Seq<u8> {
        self.buffer@
    }
}

impl LineFramer {
    /// A framer that has received nothing.
    pub fn new() -> (framer: Self)
        ensures
            framer@ == Seq::<u8>::empty(),
    {
        LineFramer { buffer: Vec::new() }
    }

    /// Takes one byte from the stream.
    ///
    /// Returns the line that the byte completes, without its CR LF, and starts
    /// over; any other byte is kept, a lone CR or LF included.
    pub fn push(&mut self, byte: u8) -> (line: Option<Vec<u8>>)
        ensures
            match line {
                Some(bytes) => {
                    &&& completes_line(old(self)@, byte)
                    &&& bytes@ == old(self)@.drop_last()
                    &&& final(self)@ == Seq::<u8>::empty()
                },
                None => {
                    &&& !completes_line(old(self)@, byte)
                    &&& final(self)@ == old(self)@.push(byte)
                },
            },
    {
        let n: usize = self.buffer.len();
        if byte == LF && n > 0 && self.buffer[n - 1] == CR {
            self.buffer.pop();
            let mut line: Vec<u8> = Vec::new();
            std::mem::swap(&mut line, &mut self.buffer);
            Some(line)
        } else {
            self.buffer.push(byte);
            None
        }
    }
}

} // verus!
