//! Reading numbers from bytes, the low byte first.

use vstd::prelude::*;

verus! {

/// The two bytes from `at` on, as a number.
pub open spec fn le_u16(bytes: Seq<u8>, at: int) -> u16 {
    (bytes[at] + 0x100 * bytes[at + 1]) as u16
}

/// The four bytes from `at` on, as a number.
pub open spec fn le_u32(bytes: Seq<u8>, at: int) -> u32 {
    (le_u16(bytes, at) + 0x1_0000 * le_u16(bytes, at + 2)) as u32
}

/// The eight bytes from `at` on, as a number.
pub open spec fn le_u64(bytes: Seq<u8>, at: int) -> u64 {
    (le_u32(bytes, at) + 0x1_0000_0000 * le_u32(bytes, at + 4)) as u64
}

/// Reads bytes from front to back. They may be part of a larger input: offsets count from its start.
pub struct Decoder<'a> {
    input: &'a [u8],
    position: usize,
    base_offset: usize,
}

/// The input ended too early; `offset` is where.
#[derive(Debug, Clone, Copy, PartialEq, Eq, Structural)]
pub struct Truncated {
    pub offset: usize,
}

impl<'a> Decoder<'a> {
    pub closed spec fn bytes(self) -> Seq<u8> {
        self.input@
    }

    /// How many bytes have been read.
    pub closed spec fn pos(self) -> int {
        self.position as int
    }

    /// The offset of the first byte.
    pub closed spec fn base(self) -> int {
        self.base_offset as int
    }

    pub open spec fn wf(self) -> bool {
        &&& 0 <= self.pos() <= self.bytes().len()
        &&& 0 <= self.base()
        &&& self.base() + self.bytes().len() <= usize::MAX
    }

    /// The offset of the end of the input.
    pub open spec fn end(self) -> int {
        self.base() + self.bytes().len()
    }

    /// Whether `after` reads the same bytes and has read some more.
    pub open spec fn advanced(self, after: Self, count: int) -> bool {
        &&& after.wf()
        &&& after.bytes() == self.bytes()
        &&& after.base() == self.base()
        &&& after.pos() == self.pos() + count
    }

    pub fn new(input: &'a [u8], base_offset: usize) -> (result: Self)
        requires
            base_offset + input@.len() <= usize::MAX,
        ensures
            result.wf(),
            result.bytes() == input@,
            result.pos() == 0,
            result.base() == base_offset,
    {
        Decoder { input, position: 0, base_offset }
    }

    pub fn offset(&self) -> (result: usize)
        requires
            self.wf(),
        ensures
            result == self.base() + self.pos(),
    {
        self.base_offset + self.position
    }

    pub fn remaining(&self) -> (result: usize)
        requires
            self.wf(),
        ensures
            result == self.bytes().len() - self.pos(),
    {
        self.input.len() - self.position
    }

    pub fn is_empty(&self) -> (result: bool)
        requires
            self.wf(),
        ensures
            result == (self.pos() == self.bytes().len()),
    {
        self.remaining() == 0
    }

    pub fn read_u8(&mut self) -> (result: Result<u8, Truncated>)
        requires
            old(self).wf(),
        ensures
            if old(self).pos() + 1 <= old(self).bytes().len() {
                &&& old(self).advanced(*final(self), 1)
                &&& result == Ok::<u8, Truncated>(old(self).bytes()[old(self).pos()])
            } else {
                &&& *final(self) == *old(self)
                &&& result matches Err(error)
                &&& error.offset == old(self).end()
            },
    {
        if self.remaining() < 1 {
            return Err(self.truncated());
        }
        let value: u8 = self.input[self.position];
        self.position = self.position + 1;
        Ok(value)
    }

    pub fn read_u16(&mut self) -> (result: Result<u16, Truncated>)
        requires
            old(self).wf(),
        ensures
            if old(self).pos() + 2 <= old(self).bytes().len() {
                &&& old(self).advanced(*final(self), 2)
                &&& result == Ok::<u16, Truncated>(le_u16(old(self).bytes(), old(self).pos()))
            } else {
                &&& *final(self) == *old(self)
                &&& result matches Err(error)
                &&& error.offset == old(self).end()
            },
    {
        if self.remaining() < 2 {
            return Err(self.truncated());
        }
        let at: usize = self.position;
        let value: u16 = self.input[at] as u16 + 0x100 * (self.input[at + 1] as u16);
        self.position = at + 2;
        Ok(value)
    }

    pub fn read_u32(&mut self) -> (result: Result<u32, Truncated>)
        requires
            old(self).wf(),
        ensures
            if old(self).pos() + 4 <= old(self).bytes().len() {
                &&& old(self).advanced(*final(self), 4)
                &&& result == Ok::<u32, Truncated>(le_u32(old(self).bytes(), old(self).pos()))
            } else {
                &&& *final(self) == *old(self)
                &&& result matches Err(error)
                &&& error.offset == old(self).end()
            },
    {
        if self.remaining() < 4 {
            return Err(self.truncated());
        }
        let low: u16 = self.read_u16().unwrap();
        let high: u16 = self.read_u16().unwrap();
        Ok(low as u32 + 0x1_0000 * (high as u32))
    }

    /// Reads a floating-point number, as its bit pattern.
    pub fn read_bits(&mut self) -> (result: Result<u64, Truncated>)
        requires
            old(self).wf(),
        ensures
            if old(self).pos() + 8 <= old(self).bytes().len() {
                &&& old(self).advanced(*final(self), 8)
                &&& result == Ok::<u64, Truncated>(le_u64(old(self).bytes(), old(self).pos()))
            } else {
                &&& *final(self) == *old(self)
                &&& result matches Err(error)
                &&& error.offset == old(self).end()
            },
    {
        if self.remaining() < 8 {
            return Err(self.truncated());
        }
        let low: u32 = self.read_u32().unwrap();
        let high: u32 = self.read_u32().unwrap();
        Ok(low as u64 + 0x1_0000_0000 * (high as u64))
    }

    pub fn read_bytes(&mut self, length: usize) -> (result: Result<&'a [u8], Truncated>)
        requires
            old(self).wf(),
        ensures
            if old(self).pos() + length <= old(self).bytes().len() {
                &&& old(self).advanced(*final(self), length as int)
                &&& result matches Ok(bytes)
                &&& bytes@ == old(self).bytes().subrange(
                    old(self).pos(),
                    old(self).pos() + length,
                )
            } else {
                &&& *final(self) == *old(self)
                &&& result matches Err(error)
                &&& error.offset == old(self).end()
            },
    {
        if self.remaining() < length {
            return Err(self.truncated());
        }
        let end: usize = self.position + length;
        let bytes = vstd::slice::slice_subrange(self.input, self.position, end);
        self.position = end;
        Ok(bytes)
    }

    fn truncated(&self) -> (result: Truncated)
        requires
            self.wf(),
        ensures
            result.offset == self.end(),
    {
        Truncated { offset: self.base_offset + self.input.len() }
    }
}

} // verus!
