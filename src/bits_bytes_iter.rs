//! Reads bits and bit-shifted bytes from a borrowed byte slice.
use vstd::prelude::*;
use crate::bits::{
    bits_of, byte_bits, byte_from_bits, lemma_byte_from_own_bits, lemma_window_bits,
    msb_bit, padded_bits, read_bytes, straddling_byte,
};

verus! {

/// A reader at a bit position of a byte slice, with the two bytes under that position at hand.
#[derive(Debug)]
pub struct BitsBytesIter<'a> {
    bit_offset: u8,
    raw: &'a [u8],
    cursor: usize,
    window: [Option<u8>; 2],
}

impl<'a> BitsBytesIter<'a> {
    /// The bytes being read.
    pub closed spec fn data(&self) -> Seq<u8> {
        self.raw@
    }

    /// The bit position of the next read.
    pub closed spec fn position(&self) -> int {
        8 * self.cursor + self.bit_offset
    }

    /// The bits being read.
    pub open spec fn stream(&self) -> Seq<bool> {
        bits_of(self.data())
    }

    pub closed spec fn wf(&self) -> bool {
        &&& self.bit_offset < 8
        &&& self.cursor <= self.raw@.len()
        &&& self.window[0] == if self.cursor < self.raw@.len() {
            Some(self.raw@[self.cursor as int])
        } else {
            None::<u8>
        }
        &&& self.window[1] == if self.cursor + 1 < self.raw@.len() {
            Some(self.raw@[self.cursor + 1])
        } else {
            None::<u8>
        }
    }

    pub proof fn lemma_position_bounds(&self)
        requires
            self.wf(),
        ensures
            0 <= self.position() < 8 * self.data().len() + 8,
    {
    }

    pub fn new(raw: &'a [u8]) -> (r: Self)
        ensures
            r.wf(),
            r.data() == raw@,
            r.position() == 0,
    {
        let first = if raw.len() > 0 {
            Some(raw[0])
        } else {
            None
        };
        let second = if raw.len() > 1 {
            Some(raw[1])
        } else {
            None
        };
        BitsBytesIter { bit_offset: 0, raw, cursor: 0, window: [first, second] }
    }

    /// Reads the bit at the current position, or `None` past the end.
    pub fn next_bit(&mut self) -> (r: Option<bool>)
        requires
            old(self).wf(),
        ensures
            final(self).wf(),
            final(self).data() == old(self).data(),
            old(self).position() < old(self).stream().len() ==> r == Some(
                old(self).stream()[old(self).position()],
            ) && final(self).position() == old(self).position() + 1,
            old(self).position() >= old(self).stream().len()
                ==> r == None::<bool> && final(self).position() == old(self).position(),
    {
        match self.byte_from_window() {
            Some(byte) => {
                proof {
                    assert(byte_bits(byte)[0] == padded_bits(self.stream(), self.position(), 8)[0]);
                    assert(((byte & 0x80u8) != 0u8) == msb_bit(byte, 0)) by (bit_vector);
                }
                self.advance_bit_offset();
                Some((byte & 0b10000000) != 0)
            },
            None => None,
        }
    }

    /// Reads the eight bits from the current position as a byte, zeros past the end; `None` once
    /// no bit is left.
    pub fn next(&mut self) -> (r: Option<u8>)
        requires
            old(self).wf(),
        ensures
            final(self).wf(),
            final(self).data() == old(self).data(),
            old(self).position() < old(self).stream().len() ==> r == Some(
                byte_from_bits(padded_bits(old(self).stream(), old(self).position(), 8)),
            ) && final(self).position() == old(self).position() + 8,
            old(self).position() >= old(self).stream().len()
                ==> r == None::<u8> && final(self).position() == old(self).position(),
    {
        let byte = self.byte_from_window();
        if byte.is_some() {
            self.load_next_from_raw();
        }
        byte
    }

    /// Reads every remaining byte.
    pub fn collect(&mut self) -> (r: Vec<u8>)
        requires
            old(self).wf(),
        ensures
            final(self).wf(),
            final(self).data() == old(self).data(),
            r@ == read_bytes(old(self).stream(), old(self).position()),
    {
        let mut out: Vec<u8> = Vec::new();
        loop
            invariant
                self.wf(),
                self.data() == old(self).data(),
                self.position() >= 0,
                read_bytes(old(self).stream(), old(self).position()) == out@ + read_bytes(
                    self.stream(),
                    self.position(),
                ),
            decreases self.raw@.len() - self.cursor,
        {
            let ghost p = self.position();
            match self.next() {
                Some(byte) => {
                    assert(read_bytes(self.stream(), p) =~= seq![byte] + read_bytes(
                        self.stream(),
                        p + 8,
                    ));
                    let ghost before = out@;
                    out.push(byte);
                    assert(out@ + read_bytes(self.stream(), p + 8) =~= before + seq![byte]
                        + read_bytes(self.stream(), p + 8));
                },
                None => {
                    assert(out@ + read_bytes(self.stream(), p) =~= out@);
                    return out;
                },
            }
        }
    }

    /// Moves one bit on, loading the next byte at a byte boundary.
    fn advance_bit_offset(&mut self)
        requires
            old(self).wf(),
            old(self).cursor < old(self).raw@.len(),
        ensures
            final(self).wf(),
            final(self).data() == old(self).data(),
            final(self).position() == old(self).position() + 1,
    {
        self.bit_offset = self.bit_offset + 1;
        if self.bit_offset == 8 {
            self.bit_offset = 0;
            self.load_next_from_raw();
        }
    }

    /// Slides the two-byte window one byte on, unless the source is used up.
    fn load_next_from_raw(&mut self)
        requires
            old(self).cursor <= old(self).raw@.len(),
            old(self).window[1] == if old(self).cursor + 1 < old(self).raw@.len() {
                Some(old(self).raw@[old(self).cursor + 1])
            } else {
                None::<u8>
            },
        ensures
            final(self).raw == old(self).raw,
            final(self).bit_offset == old(self).bit_offset,
            final(self).cursor == if old(self).cursor < old(self).raw@.len() {
                old(self).cursor + 1
            } else {
                old(self).cursor as int
            },
            final(self).cursor < final(self).raw@.len() ==> final(self).window[0] == Some(
                final(self).raw@[final(self).cursor as int],
            ),
            final(self).cursor >= final(self).raw@.len() ==> final(self).window[0] == None::<u8>,
            final(self).window[1] == if final(self).cursor + 1 < final(self).raw@.len() {
                Some(final(self).raw@[final(self).cursor + 1])
            } else {
                None::<u8>
            },
    {
        if self.cursor < self.raw.len() {
            self.window[0] = self.window[1];
            self.cursor = self.cursor + 1;
            let next_byte = if self.raw.len() - self.cursor > 1 {
                Some(self.raw[self.cursor + 1])
            } else {
                None
            };
            self.window[1] = next_byte;
        } else {
            self.window[0] = None;
        }
    }

    /// The byte from the current position, or `None` past the end.
    fn byte_from_window(&self) -> (r: Option<u8>)
        requires
            self.wf(),
        ensures
            self.position() < self.stream().len() ==> r.is_some() && byte_bits(r.unwrap())
                == padded_bits(self.stream(), self.position(), 8) && r.unwrap() == byte_from_bits(
                padded_bits(self.stream(), self.position(), 8),
            ),
            self.position() >= self.stream().len() ==> r == None::<u8>,
            r.is_some() == (self.cursor < self.raw@.len()),
    {
        match self.window[0] {
            None => None,
            Some(current_byte) => {
                let r = straddling_byte(current_byte, self.window[1], self.bit_offset);
                proof {
                    lemma_window_bits(self.raw@, self.cursor as int, self.bit_offset as int);
                    lemma_byte_from_own_bits(r, padded_bits(self.stream(), self.position(), 8));
                }
                Some(r)
            },
        }
    }
}

} // verus!
