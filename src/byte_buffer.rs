//! The bit writer: collects bits and hands out each byte as soon as it is complete.
use vstd::prelude::*;
use crate::bits::{bits_of, byte_bits, emitted, lemma_bits_of_push, lemma_set_bit, msb_bit, zero_pad};

verus! {

/// Bits waiting to form a byte, most significant first.
pub struct ByteBuffer {
    index: usize,
    buffer: [bool; 16],
}

impl ByteBuffer {
    /// The bits written and not yet handed out, oldest first.
    pub closed spec fn pending(&self) -> Seq<bool> {
        self.buffer@.subrange(0, self.index as int)
    }

    /// Between calls fewer than eight bits wait.
    pub closed spec fn wf(&self) -> bool {
        self.index < 8
    }

    pub fn new() -> (r: ByteBuffer)
        ensures
            r.wf(),
            r.pending() == Seq::<bool>::empty(),
    {
        let r = ByteBuffer { index: 0, buffer: [false; 16] };
        assert(r.pending() =~= Seq::<bool>::empty());
        r
    }

    /// Writes the eight bits of `new_byte`, most significant first; a byte is always completed.
    pub fn add_byte(&mut self, new_byte: u8) -> (r: Option<u8>)
        requires
            old(self).wf(),
        ensures
            final(self).wf(),
            r.is_some(),
            emitted(r) + final(self).pending() == old(self).pending() + byte_bits(new_byte),
    {
        let ghost start = self.pending();
        let mut i: u8 = 0;
        while i < 8
            invariant
                i <= 8,
                self.index == old(self).index + i,
                old(self).index < 8,
                self.pending() =~= start + byte_bits(new_byte).subrange(0, i as int),
            decreases 8 - i,
        {
            let bit = (new_byte & (1u8 << (7 - i))) != 0;
            proof {
                lemma_set_bit(new_byte, i, 0);
            }
            let ghost before = self.pending();
            self.buffer[self.index] = bit;
            self.index = self.index + 1;
            assert(self.pending() =~= before.push(bit));
            assert(byte_bits(new_byte).subrange(0, i + 1) =~= byte_bits(new_byte).subrange(
                0,
                i as int,
            ).push(bit));
            i = i + 1;
        }
        assert(byte_bits(new_byte).subrange(0, 8) =~= byte_bits(new_byte));
        self.maybe_return_byte()
    }

    /// Writes one bit; the eighth pending bit completes a byte.
    pub fn add_bit(&mut self, new_bit: bool) -> (r: Option<u8>)
        requires
            old(self).wf(),
        ensures
            final(self).wf(),
            r.is_some() == (old(self).pending().len() == 7),
            emitted(r) + final(self).pending() == old(self).pending().push(new_bit),
    {
        self.buffer[self.index] = new_bit;
        self.index = self.index + 1;
        assert(self.pending() =~= old(self).pending().push(new_bit));
        self.maybe_return_byte()
    }

    /// Pads the pending bits with zeros to a whole byte and hands it out; nothing when none wait.
    pub fn last_byte(&mut self) -> (r: Option<u8>)
        requires
            old(self).wf(),
        ensures
            final(self).wf(),
            final(self).pending() == Seq::<bool>::empty(),
            r.is_some() == (old(self).pending().len() > 0),
            emitted(r) == old(self).pending() + zero_pad(old(self).pending().len()),
    {
        if self.index > 0 {
            let ghost start = self.pending();
            while self.index < 8
                invariant
                    0 < old(self).index <= self.index <= 8,
                    self.pending() =~= start + Seq::new(
                        (self.index - old(self).index) as nat,
                        |i: int| false,
                    ),
                decreases 8 - self.index,
            {
                let ghost before = self.pending();
                self.buffer[self.index] = false;
                self.index = self.index + 1;
                assert(self.pending() =~= before.push(false));
            }
            assert(zero_pad(start.len()) =~= Seq::new(
                (8 - old(self).index) as nat,
                |i: int| false,
            ));
            let r = self.maybe_return_byte();
            assert(self.pending() =~= Seq::<bool>::empty());
            assert(emitted(r) =~= emitted(r) + self.pending());
            r
        } else {
            assert(old(self).pending() + zero_pad(0) =~= Seq::<bool>::empty());
            None
        }
    }

    /// Hands out the oldest eight bits as a byte once there are that many.
    fn maybe_return_byte(&mut self) -> (r: Option<u8>)
        requires
            old(self).index <= 15,
        ensures
            final(self).index == if old(self).index >= 8 {
                old(self).index - 8
            } else {
                old(self).index as int
            },
            r.is_some() == (old(self).index >= 8),
            emitted(r) + final(self).pending() == old(self).pending(),
    {
        if self.index >= 8 {
            let mut return_byte: u8 = 0;
            let mut i: u8 = 0;
            assert forall|k: u8| k < 8 implies !#[trigger] msb_bit(0u8, k) by {
                lemma_set_bit(0u8, 0u8, k);
            }
            while i < 8
                invariant
                    i <= 8,
                    self.index >= 8,
                    forall|k: u8|
                        k < 8
                            ==> #[trigger] msb_bit(return_byte, k)
                                == (k < i && self.buffer[k as int]),
                decreases 8 - i,
            {
                assert forall|k: u8| k < 8 implies #[trigger] msb_bit(return_byte | (1u8 << ((7 - i) as u8)), k)
                    == (msb_bit(return_byte, k) || k == i) by {
                    lemma_set_bit(return_byte, i, k);
                }
                if self.buffer[i as usize] {
                    return_byte = return_byte | (1u8 << (7 - i));
                }
                i = i + 1;
            }
            let ghost before = self.pending();
            assert(byte_bits(return_byte) =~= before.subrange(0, 8)) by {
                assert forall|k: int| 0 <= k < 8 implies #[trigger] byte_bits(return_byte)[k]
                    == before[k] by {
                    assert(msb_bit(return_byte, k as u8) == self.buffer[k]);
                }
            }
            let mut j: usize = 8;
            while j < self.index
                invariant
                    8 <= j <= self.index <= 15,
                    self.index == old(self).index,
                    forall|k: int| 0 <= k < j - 8 ==> #[trigger] self.buffer[k] == before[k + 8],
                    before.len() == self.index,
                    forall|k: int| j <= k < self.index ==> #[trigger] self.buffer[k] == before[k],
                decreases self.index - j,
            {
                self.buffer[j - 8] = self.buffer[j];
                j = j + 1;
            }
            self.index = self.index - 8;
            assert(self.pending() =~= before.subrange(8, before.len() as int));
            assert(byte_bits(return_byte) + self.pending() =~= before);
            Some(return_byte)
        } else {
            assert(emitted(None) + self.pending() =~= self.pending());
            None
        }
    }

    /// Packs a bit sequence into bytes: the bits in order, then zeros up to a byte boundary.
    pub fn pack_bits(bits: &[bool]) -> (r: Vec<u8>)
        ensures
            bits_of(r@) == bits@ + zero_pad(bits@.len()),
    {
        let mut writer = ByteBuffer::new();
        let mut out: Vec<u8> = Vec::new();
        let mut i: usize = 0;
        while i < bits.len()
            invariant
                i <= bits.len(),
                writer.wf(),
                bits_of(out@) + writer.pending() == bits@.subrange(0, i as int),
            decreases bits.len() - i,
        {
            let r = writer.add_bit(bits[i]);
            proof {
                assert(bits@.subrange(0, i + 1) =~= bits@.subrange(0, i as int).push(bits[i as int]));
            }
            match r {
                Some(b) => {
                    proof {
                        lemma_bits_of_push(out@, b);
                    }
                    out.push(b);
                    assert(bits_of(out@) + writer.pending() =~= bits@.subrange(0, i + 1));
                },
                None => {
                    assert(bits_of(out@) + writer.pending() =~= bits@.subrange(0, i + 1));
                },
            }
            i = i + 1;
        }
        let ghost pending = writer.pending();
        assert(bits@.subrange(0, bits.len() as int) =~= bits@);
        assert(bits_of(out@).len() == 8 * out@.len());
        assert(bits@.len() % 8 == pending.len() % 8);
        let r = writer.last_byte();
        match r {
            Some(b) => {
                proof {
                    lemma_bits_of_push(out@, b);
                }
                out.push(b);
            },
            None => {},
        }
        assert(bits_of(out@) =~= bits@ + zero_pad(bits@.len()));
        out
    }
}

} // verus!
