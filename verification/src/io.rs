//! The byte I/O capability the calculator runs against, and an in-memory
//! implementation for driving it without hardware.

use vstd::prelude::*;

verus! {

/// A failed byte read.
#[derive(Clone, Copy, Debug, PartialEq, Eq, Structural)]
pub struct IoError;

/// A blocking byte-oriented serial link.  Its history is modelled by two
/// sequences: the bytes successfully read so far and the bytes written so
/// far.  A failed read leaves both unchanged; a write always appends.
pub trait ByteIo {
    /// Every byte successfully read over this link so far, oldest first.
    spec fn input_read(&self) -> Seq<u8>;

    /// Every byte written over this link so far, oldest first.
    spec fn output_written(&self) -> Seq<u8>;

    /// Blocks until one byte arrives or the read fails.
    fn read_byte(&mut self) -> (r: Result<u8, IoError>)
        ensures
            final(self).output_written() == old(self).output_written(),
            match r {
                Ok(byte) => final(self).input_read() == old(self).input_read().push(byte),
                Err(_) => final(self).input_read() == old(self).input_read(),
            },
    ;

    /// Blocks until `byte` has been handed to the link.
    fn write_byte(&mut self, byte: u8)
        ensures
            final(self).input_read() == old(self).input_read(),
            final(self).output_written() == old(self).output_written().push(byte),
    ;
}

/// An in-memory serial link: reads come from a fixed buffer of input bytes
/// (failing once it is exhausted) and writes are collected in an output
/// buffer.
pub struct MemoryPort {
    input: Vec<u8>,
    cursor: usize,
    output: Vec<u8>,
}

impl ByteIo for MemoryPort {
    closed spec fn input_read(&self) -> Seq<u8> {
        if self.cursor <= self.input@.len() {
            self.input@.take(self.cursor as int)
        } else {
            self.input@
        }
    }

    closed spec fn output_written(&self) -> Seq<u8> {
        self.output@
    }

    fn read_byte(&mut self) -> (r: Result<u8, IoError>) {
        if self.cursor < self.input.len() {
            let byte = self.input[self.cursor];
            self.cursor = self.cursor + 1;
            proof {
                assert(self.input@.take(self.cursor as int) =~= old(
                    self,
                ).input@.take(old(self).cursor as int).push(byte));
            }
            Ok(byte)
        } else {
            Err(IoError)
        }
    }

    fn write_byte(&mut self, byte: u8) {
        self.output.push(byte);
    }
}

impl MemoryPort {
    /// A fresh port that will serve the bytes of `input`, in order.
    pub fn new(input: Vec<u8>) -> (r: MemoryPort)
        ensures
            r.input_read() == Seq::<u8>::empty(),
            r.output_written() == Seq::<u8>::empty(),
    {
        let port = MemoryPort { input, cursor: 0, output: Vec::new() };
        proof {
            assert(port.input_read() =~= Seq::<u8>::empty());
        }
        port
    }

    /// The bytes written so far.
    pub fn output(&self) -> (r: &Vec<u8>)
        ensures
            r@ == self.output_written(),
    {
        &self.output
    }
}

} // verus!
