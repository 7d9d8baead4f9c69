//! The codec: a window of recent bytes and a lookahead queue, with the greedy encoder and the
//! decoder over them.
use vstd::prelude::*;
use vstd::arithmetic::power2::{lemma2_to64, lemma_pow2_strictly_increases, pow2};
use vstd::bits::lemma_usize_shr_is_div;
use heapless::{Deque, HistoryBuffer};
use crate::bits::{
    bits_of, bits_value, byte_bits, emitted, lemma_bits_of_push, lemma_bits_value_bound,
    lemma_bits_value_concat, lemma_byte_bits_value, lemma_value_bits_split, padded_bits,
    value_bits, zero_pad,
};
use crate::bits_bytes_iter::BitsBytesIter;
use crate::byte_buffer::ByteBuffer;
use crate::model::{
    best_position, copy_run, decode_run, distance_width, encode_tokens, encoded_bits,
    fresh_window, has_match, is_best_match, lemma_best_match_unique, lemma_common_prefix_exact,
    lemma_match_len_bound, lemma_slide_all_compose, lemma_tokens_bits_push, lookahead_end,
    match_len, slide_all, step_token, token_bits, token_len, tokens_bits, Token,
};
use crate::storage::{
    history_as_slices, history_clear_with, history_contents, history_new, history_write,
    queue_as_slices, queue_clear, queue_contents, queue_len, queue_new, queue_pop_front,
    queue_push_back, HISTORY_CAPACITY,
};

verus! {

/// An LZSS encoder and decoder with a window of `2^window_bits` bytes and matches of up to
/// `2^length_bits` bytes.
pub struct HeatShrink {
    window_bits: usize,
    length_bits: usize,
    window_size: usize,
    lookahead_size: usize,
    window: HistoryBuffer<u8, 65536>,
    lookahead: Deque<u8, 65536>,
}

/// `2^bits`.
fn power_of_two(bits: usize) -> (r: usize)
    requires
        bits <= 16,
    ensures
        r == pow2(bits as nat),
{
    let mut r: usize = 1;
    let mut i: usize = 0;
    proof {
        lemma2_to64();
    }
    while i < bits
        invariant
            i <= bits <= 16,
            r == pow2(i as nat),
        decreases bits - i,
    {
        proof {
            lemma2_to64();
            if i < 15 {
                lemma_pow2_strictly_increases(i as nat, 15);
            }
            vstd::arithmetic::power2::lemma_pow2_unfold((i + 1) as nat);
        }
        r = r * 2;
        i = i + 1;
    }
    r
}

/// Element `i` of `a` followed by `b`.
fn pair_at(a: &[u8], b: &[u8], i: usize) -> (r: u8)
    requires
        i < a@.len() + b@.len(),
    ensures
        r == (a@ + b@)[i as int],
{
    if i < a.len() {
        a[i]
    } else {
        b[i - a.len()]
    }
}

/// Writes one bit, appending the byte it completes, if any, to `out`.
fn put_bit(writer: &mut ByteBuffer, out: &mut Vec<u8>, bit: bool)
    requires
        old(writer).wf(),
    ensures
        final(writer).wf(),
        bits_of(final(out)@) + final(writer).pending()
            == bits_of(old(out)@) + old(writer).pending().push(bit),
{
    let r = writer.add_bit(bit);
    if let Some(byte) = r {
        proof {
            lemma_bits_of_push(out@, byte);
        }
        out.push(byte);
    }
    assert(bits_of(out@) + writer.pending() =~= bits_of(old(out)@) + (emitted(r) + writer.pending()));
}

/// Writes the eight bits of a byte, appending the byte they complete to `out`.
fn put_byte(writer: &mut ByteBuffer, out: &mut Vec<u8>, byte: u8)
    requires
        old(writer).wf(),
    ensures
        final(writer).wf(),
        bits_of(final(out)@) + final(writer).pending()
            == bits_of(old(out)@) + old(writer).pending() + byte_bits(byte),
{
    let r = writer.add_byte(byte);
    if let Some(b) = r {
        proof {
            lemma_bits_of_push(out@, b);
        }
        out.push(b);
    }
    assert(bits_of(out@) + writer.pending() =~= bits_of(old(out)@) + (emitted(r) + writer.pending()));
}

impl HeatShrink {
    /// Bits of a window position: the window holds `2^window_bits` bytes.
    pub closed spec fn window_bits(&self) -> nat {
        self.window_bits as nat
    }

    /// Bits of a match length: a match runs to at most `2^length_bits` bytes.
    pub closed spec fn length_bits(&self) -> nat {
        self.length_bits as nat
    }

    /// The window, oldest byte first.
    pub closed spec fn window(&self) -> Seq<u8> {
        history_contents(self.window).subrange(
            HISTORY_CAPACITY - self.window_size,
            HISTORY_CAPACITY as int,
        )
    }

    closed spec fn queued(&self) -> Seq<u8> {
        queue_contents(self.lookahead)
    }

    /// The widths are in range and the sizes are their powers of two.
    pub closed spec fn sizes_wf(&self) -> bool {
        &&& 1 <= self.window_bits <= 16
        &&& 1 <= self.length_bits <= 16
        &&& self.window_size == pow2(self.window_bits as nat)
        &&& self.lookahead_size == pow2(self.length_bits as nat)
    }

    closed spec fn parts_wf(&self) -> bool {
        &&& self.sizes_wf()
        &&& history_contents(self.window).len() == HISTORY_CAPACITY
        &&& self.queued().len() <= self.lookahead_size
    }

    /// Ready for an encode or a decode: the history is full and nothing waits in the lookahead.
    pub closed spec fn idle(&self) -> bool {
        &&& self.parts_wf()
        &&& self.queued().len() == 0
    }

    pub open spec fn wf(&self) -> bool {
        self.sizes_wf() && self.idle()
    }

    closed spec fn same_shape(&self, other: &HeatShrink) -> bool {
        &&& self.window_bits == other.window_bits
        &&& self.length_bits == other.length_bits
        &&& self.window_size == other.window_size
        &&& self.lookahead_size == other.lookahead_size
    }

    proof fn lemma_sizes(&self)
        requires
            self.sizes_wf(),
        ensures
            2 <= self.window_size <= HISTORY_CAPACITY,
            2 <= self.lookahead_size <= 65536,
            self.window_bits <= 8 ==> self.window_size <= 256,
    {
        lemma2_to64();
        if self.window_bits < 16 {
            lemma_pow2_strictly_increases(self.window_bits as nat, 16);
        }
        if self.length_bits < 16 {
            lemma_pow2_strictly_increases(self.length_bits as nat, 16);
        }
        if 1 < self.window_bits {
            lemma_pow2_strictly_increases(1, self.window_bits as nat);
        }
        if 1 < self.length_bits {
            lemma_pow2_strictly_increases(1, self.length_bits as nat);
        }
        if self.window_bits < 8 {
            lemma_pow2_strictly_increases(self.window_bits as nat, 8);
        }
    }

    /// A codec with a window of `2^window_bits` bytes, all zero, and matches of up to
    /// `2^length_bits` bytes; `None` unless both widths lie in `1..=16`.
    pub fn new(window_bits: usize, length_bits: usize) -> (r: Option<HeatShrink>)
        ensures
            r.is_some() == (1 <= window_bits <= 16 && 1 <= length_bits <= 16),
            r matches Some(hs) ==> {
                &&& hs.wf()
                &&& hs.window_bits() == window_bits
                &&& hs.length_bits() == length_bits
                &&& hs.window() == fresh_window(window_bits as nat)
            },
    {
        if window_bits < 1 || window_bits > 16 || length_bits < 1 || length_bits > 16 {
            return None;
        }
        let mut hs = HeatShrink {
            window_bits,
            length_bits,
            window_size: power_of_two(window_bits),
            lookahead_size: power_of_two(length_bits),
            window: history_new(),
            lookahead: queue_new(),
        };
        hs.reset();
        Some(hs)
    }

    /// Empties the lookahead and zeroes the window: the codec is then as `new` made it.
    pub fn reset(&mut self)
        requires
            old(self).sizes_wf(),
        ensures
            final(self).wf(),
            final(self).window_bits() == old(self).window_bits(),
            final(self).length_bits() == old(self).length_bits(),
            final(self).window() == fresh_window(old(self).window_bits()),
    {
        history_clear_with(&mut self.window, 0);
        queue_clear(&mut self.lookahead);
        proof {
            self.lemma_sizes();
        }
        assert(self.window() =~= fresh_window(self.window_bits()));
    }

    /// Pushes a byte into the window, dropping the oldest.
    fn push_window_value(&mut self, byte: u8)
        requires
            old(self).parts_wf(),
        ensures
            final(self).parts_wf(),
            final(self).same_shape(old(self)),
            final(self).queued() == old(self).queued(),
            final(self).window() == slide_all(old(self).window(), seq![byte]),
    {
        let ghost before = history_contents(self.window);
        history_write(&mut self.window, byte);
        proof {
            self.lemma_sizes();
            let n = self.window_size as int;
            let after = history_contents(self.window);
            assert(after =~= before.drop_first().push(byte));
            let old_win = before.subrange(HISTORY_CAPACITY - n, HISTORY_CAPACITY as int);
            assert(self.window() =~= slide_all(old_win, seq![byte]));
        }
    }

    /// The window byte `back_index` positions behind the newest (0 is the newest).
    fn get_window_value(&self, back_index: usize) -> (r: u8)
        requires
            self.parts_wf(),
            back_index < self.window_size,
        ensures
            r == self.window()[self.window_size - 1 - back_index],
    {
        proof {
            self.lemma_sizes();
        }
        let (first, second) = history_as_slices(&self.window);
        pair_at(first, second, HISTORY_CAPACITY - 1 - back_index)
    }

    /// Searches the window for the longest match of the literal and the queued bytes after it;
    /// the oldest position wins among equals, and a match must run to three bytes. Returns the
    /// distance behind the newest byte and the length.
    fn find_lookahead_in_window(&self, literal_byte: u8) -> (r: Option<(usize, usize)>)
        requires
            self.parts_wf(),
        ensures
            match r {
                Some((d, n)) => {
                    &&& d < self.window_size
                    &&& is_best_match(self.window(), literal_byte, self.queued(), self.window_size - 1 - d)
                    &&& n
                        == match_len(self.window(), literal_byte, self.queued(), self.window_size - 1 - d)
                },
                None => !has_match(self.window(), literal_byte, self.queued()),
            },
    {
        proof {
            self.lemma_sizes();
        }
        let ghost win = self.window();
        let ghost la = self.queued();
        let ghost hist = history_contents(self.window);
        let n_win = self.window_size;
        let base = HISTORY_CAPACITY - n_win;
        let (h0, h1) = history_as_slices(&self.window);
        let (q0, q1) = queue_as_slices(&self.lookahead);
        assert(q0@.len() + q1@.len() == la.len());
        let queued = q0.len() + q1.len();
        let mut max_match: Option<(usize, usize)> = None;
        let mut best_len: usize = 2;
        let ghost mut best_j: int = 0;
        let mut index: usize = 0;
        while index < n_win
            invariant
                index <= n_win,
                n_win == self.window_size,
                2 <= n_win <= HISTORY_CAPACITY,
                base == HISTORY_CAPACITY - n_win,
                h0@ + h1@ == hist,
                hist.len() == HISTORY_CAPACITY,
                win == hist.subrange(base as int, HISTORY_CAPACITY as int),
                q0@ + q1@ == la,
                queued == la.len(),
                2 <= best_len,
                forall|k: int| 0 <= k < index ==> #[trigger] match_len(win, literal_byte, la, k) <= best_len,
                max_match is None ==> best_len == 2,
                max_match matches Some((d, n)) ==> {
                    &&& n == best_len
                    &&& n >= 3
                    &&& 0 <= best_j < index
                    &&& d == n_win - 1 - best_j
                    &&& match_len(win, literal_byte, la, best_j) == n
                    &&& forall|k: int| 0 <= k < best_j ==> #[trigger] match_len(win, literal_byte, la, k) < n
                },
            decreases n_win - index,
        {
            if pair_at(h0, h1, base + index) == literal_byte {
                let mut count: usize = 0;
                while index + 1 + count < n_win && count < queued && pair_at(
                    h0,
                    h1,
                    base + index + 1 + count,
                ) == pair_at(q0, q1, count)
                    invariant
                        index < n_win,
                        index + 1 + count <= n_win,
                        count <= queued,
                        n_win <= HISTORY_CAPACITY,
                        base == HISTORY_CAPACITY - n_win,
                        h0@ + h1@ == hist,
                        hist.len() == HISTORY_CAPACITY,
                        win == hist.subrange(base as int, HISTORY_CAPACITY as int),
                        q0@ + q1@ == la,
                        queued == la.len(),
                        forall|i: int| 0 <= i < count ==> win[index + 1 + i] == la[i],
                    decreases n_win - index - count,
                {
                    count = count + 1;
                }
                proof {
                    let a = win.subrange(index + 1, n_win as int);
                    lemma_common_prefix_exact(a, la, count as nat);
                }
                let current_count = count + 1;
                if current_count > best_len {
                    max_match = Some((n_win - 1 - index, current_count));
                    best_len = current_count;
                    proof {
                        best_j = index as int;
                    }
                }
            }
            index = index + 1;
        }
        proof {
            if max_match is None && has_match(win, literal_byte, la) {
                let j = choose|j: int| is_best_match(win, literal_byte, la, j);
                assert(match_len(win, literal_byte, la, j) <= 2);
            }
            if let Some((d, n)) = max_match {
                assert(self.window_size - 1 - d == best_j);
                assert(is_best_match(win, literal_byte, la, best_j));
            }
        }
        max_match
    }

    /// The number that `bits` spell, most significant first.
    fn read_number_from_bits(&self, bits: &Vec<bool>) -> (r: usize)
        requires
            bits@.len() <= 16,
        ensures
            r == bits_value(bits@),
    {
        let mut acc: usize = 0;
        let mut i: usize = 0;
        while i < bits.len()
            invariant
                i <= bits@.len() <= 16,
                acc == bits_value(bits@.subrange(0, i as int)),
            decreases bits.len() - i,
        {
            proof {
                lemma_bits_value_bound(bits@.subrange(0, i as int));
                lemma2_to64();
                if i < 15 {
                    lemma_pow2_strictly_increases(i as nat, 15);
                }
                assert(bits@.subrange(0, i + 1).drop_last() =~= bits@.subrange(0, i as int));
            }
            acc = acc * 2 + if bits[i] {
                1
            } else {
                0
            };
            i = i + 1;
        }
        assert(bits@.subrange(0, bits.len() as int) =~= bits@);
        acc
    }

    /// The `length_bits` low bits of `number`, most significant first.
    fn write_number_to_bits(&self, number: usize) -> (r: Vec<bool>)
        requires
            self.sizes_wf(),
        ensures
            r@ == value_bits(number as nat, self.length_bits as nat),
    {
        let l = self.length_bits;
        let mut bits: Vec<bool> = Vec::new();
        let mut i: usize = 0;
        while i < l
            invariant
                i <= l <= 16,
                bits@ =~= value_bits(number as nat, l as nat).subrange(0, i as int),
            decreases l - i,
        {
            let shift = l - 1 - i;
            let bit = (number >> shift) & 1 != 0;
            proof {
                lemma_usize_shr_is_div(number, shift);
                let y = number >> shift;
                assert((y & 1usize != 0usize) == (y % 2usize == 1usize)) by (bit_vector);
            }
            bits.push(bit);
            i = i + 1;
        }
        bits
    }

    /// Writes a literal token.
    fn emit_literal(&self, writer: &mut ByteBuffer, out: &mut Vec<u8>, literal_byte: u8)
        requires
            old(writer).wf(),
        ensures
            final(writer).wf(),
            bits_of(final(out)@) + final(writer).pending()
                == bits_of(old(out)@) + old(writer).pending()
                + token_bits(Token::Literal(literal_byte), self.window_bits as nat, self.length_bits as nat),
    {
        put_bit(writer, out, true);
        put_byte(writer, out, literal_byte);
        assert(bits_of(out@) + writer.pending() =~= bits_of(old(out)@) + old(writer).pending() + token_bits(
            Token::Literal(literal_byte),
            self.window_bits as nat,
            self.length_bits as nat,
        ));
    }

    /// Writes a back-reference token.
    fn emit_back_reference(
        &self,
        writer: &mut ByteBuffer,
        out: &mut Vec<u8>,
        back_ref_index: usize,
        count: usize,
    )
        requires
            old(writer).wf(),
            self.sizes_wf(),
            back_ref_index < self.window_size,
            1 <= count,
        ensures
            final(writer).wf(),
            bits_of(final(out)@) + final(writer).pending()
                == bits_of(old(out)@) + old(writer).pending()
                + token_bits(
                Token::BackReference { distance: back_ref_index, length: count },
                self.window_bits as nat,
                self.length_bits as nat,
            ),
    {
        proof {
            self.lemma_sizes();
            lemma2_to64();
        }
        let ghost start = bits_of(out@) + writer.pending();
        let ghost dw = distance_width(self.window_bits as nat);
        put_bit(writer, out, false);
        if self.window_bits > 8 {
            let msb_index_byte: u8 = (back_ref_index / 256) as u8;
            let lsb_index_byte: u8 = (back_ref_index % 256) as u8;
            put_byte(writer, out, msb_index_byte);
            put_byte(writer, out, lsb_index_byte);
            proof {
                lemma_byte_bits_value(msb_index_byte);
                lemma_byte_bits_value(lsb_index_byte);
                lemma_value_bits_split(back_ref_index as nat, 8, 8);
                assert(byte_bits(msb_index_byte) + byte_bits(lsb_index_byte) =~= value_bits(back_ref_index as nat, dw));
            }
            assert(bits_of(out@) + writer.pending() =~= start + seq![false] + value_bits(back_ref_index as nat, dw));
        } else {
            put_byte(writer, out, back_ref_index as u8);
            proof {
                lemma_byte_bits_value(back_ref_index as u8);
            }
            assert(bits_of(out@) + writer.pending() =~= start + seq![false] + value_bits(back_ref_index as nat, dw));
        }
        let ghost mid = bits_of(out@) + writer.pending();
        let bits = self.write_number_to_bits(count - 1);
        let mut i: usize = 0;
        while i < bits.len()
            invariant
                i <= bits@.len(),
                writer.wf(),
                bits_of(out@) + writer.pending() =~= mid + bits@.subrange(0, i as int),
            decreases bits.len() - i,
        {
            let ghost before_out = bits_of(out@);
            let ghost before_pending = writer.pending();
            put_bit(writer, out, bits[i]);
            assert(bits@.subrange(0, i + 1) =~= bits@.subrange(0, i as int).push(bits@[i as int]));
            assert(before_out + before_pending.push(bits@[i as int]) =~= (before_out + before_pending).push(bits@[i as int]));
            i = i + 1;
        }
        assert(bits@.subrange(0, bits.len() as int) =~= bits@);
        assert(bits_of(out@) + writer.pending() =~= start + token_bits(
            Token::BackReference { distance: back_ref_index, length: count },
            self.window_bits as nat,
            self.length_bits as nat,
        ));
    }

    /// Moves the literal and the `count - 1` queued bytes after it into the window.
    fn commit_match(&mut self, literal_byte: u8, count: usize)
        requires
            old(self).parts_wf(),
            1 <= count <= old(self).queued().len() + 1,
        ensures
            final(self).parts_wf(),
            final(self).same_shape(old(self)),
            final(self).window() == slide_all(
                old(self).window(),
                seq![literal_byte] + old(self).queued().subrange(0, count - 1),
            ),
            final(self).queued()
                == old(self).queued().subrange(count - 1, old(self).queued().len() as int),
    {
        self.push_window_value(literal_byte);
        let ghost q0 = old(self).queued();
        let ghost w0 = old(self).window();
        let mut k: usize = 1;
        while k < count
            invariant
                1 <= k <= count <= q0.len() + 1,
                self.parts_wf(),
                self.same_shape(old(self)),
                self.queued() == q0.subrange(k - 1, q0.len() as int),
                self.window() == slide_all(w0, seq![literal_byte] + q0.subrange(0, k - 1)),
            decreases count - k,
        {
            let ghost before = self.window();
            let popped = queue_pop_front(&mut self.lookahead);
            if let Some(byte) = popped {
                self.push_window_value(byte);
                proof {
                    lemma_slide_all_compose(w0, seq![literal_byte] + q0.subrange(0, k - 1), seq![byte]);
                    assert(seq![literal_byte] + q0.subrange(0, k - 1) + seq![byte] =~= seq![literal_byte]
                        + q0.subrange(0, k as int));
                }
            }
            assert(self.queued() =~= q0.subrange(k as int, q0.len() as int));
            k = k + 1;
        }
    }

    /// Encodes one token for `literal_byte`, just taken from the front of the lookahead: writes
    /// its bits and moves the bytes it stands for into the window. Returns how many that is.
    fn encode_step(&mut self, writer: &mut ByteBuffer, out: &mut Vec<u8>, literal_byte: u8) -> (r: usize)
        requires
            old(self).parts_wf(),
            old(writer).wf(),
        ensures
            final(self).parts_wf(),
            final(self).same_shape(old(self)),
            final(writer).wf(),
            r == token_len(step_token(old(self).window(), literal_byte, old(self).queued())),
            1 <= r <= old(self).queued().len() + 1,
            final(self).window() == slide_all(
                old(self).window(),
                (seq![literal_byte] + old(self).queued()).subrange(0, r as int),
            ),
            final(self).queued()
                == old(self).queued().subrange(r - 1, old(self).queued().len() as int),
            bits_of(final(out)@) + final(writer).pending()
                == bits_of(old(out)@) + old(writer).pending()
                + token_bits(
                step_token(old(self).window(), literal_byte, old(self).queued()),
                old(self).window_bits as nat,
                old(self).length_bits as nat,
            ),
    {
        let ghost win = self.window();
        let ghost la = self.queued();
        match self.find_lookahead_in_window(literal_byte) {
            Some((back_ref_index, count)) => {
                let ghost j = self.window_size - 1 - back_ref_index;
                proof {
                    self.lemma_sizes();
                    lemma_match_len_bound(win, literal_byte, la, j);
                    lemma_best_match_unique(win, literal_byte, la, j, best_position(win, literal_byte, la));
                    assert(step_token(win, literal_byte, la) == Token::BackReference { distance: back_ref_index, length: count });
                }
                self.emit_back_reference(writer, out, back_ref_index, count);
                self.commit_match(literal_byte, count);
                assert(seq![literal_byte] + la.subrange(0, count - 1) =~= (seq![literal_byte] + la).subrange(0, count as int));
                count
            },
            None => {
                self.emit_literal(writer, out, literal_byte);
                self.push_window_value(literal_byte);
                assert(seq![literal_byte] =~= (seq![literal_byte] + la).subrange(0, 1));
                assert(la.subrange(0, la.len() as int) =~= la);
                1
            },
        }
    }

    /// Compresses `input`, continuing from the current window. The result holds the bits of the
    /// tokens that the greedy encoder picks, padded with zeros to a whole byte; the window then
    /// holds the newest bytes of `input`.
    #[verifier::rlimit(40)]
    pub fn encode(&mut self, input: &[u8]) -> (r: Vec<u8>)
        requires
            old(self).wf(),
        ensures
            final(self).wf(),
            final(self).window_bits() == old(self).window_bits(),
            final(self).length_bits() == old(self).length_bits(),
            final(self).window() == slide_all(old(self).window(), input@),
            bits_of(r@) == encoded_bits(
                old(self).window_bits(),
                old(self).length_bits(),
                old(self).window(),
                input@,
            ) + zero_pad(
                encoded_bits(
                    old(self).window_bits(),
                    old(self).length_bits(),
                    old(self).window(),
                    input@,
                ).len(),
            ),
    {
        let ghost w = self.window_bits as nat;
        let ghost l = self.length_bits as nat;
        let ghost win0 = self.window();
        let ghost all = encode_tokens(l, win0, input@);
        let mut byte_buffer = ByteBuffer::new();
        let mut out: Vec<u8> = Vec::new();
        let mut fed: usize = 0;
        let mut consumed: usize = 0;
        let ghost mut done: Seq<Token> = seq![];
        proof {
            self.lemma_sizes();
            assert(input@.subrange(0, 0) =~= Seq::<u8>::empty());
            assert(slide_all(win0, Seq::<u8>::empty()) =~= win0);
            assert(input@.subrange(0, input@.len() as int) =~= input@);
            assert(bits_of(out@) + byte_buffer.pending() =~= tokens_bits(done, w, l));
            assert(all =~= done + all);
        }
        loop
            invariant
                self.parts_wf(),
                self.same_shape(old(self)),
                w == self.window_bits,
                l == self.length_bits,
                win0 == old(self).window(),
                all == encode_tokens(l, win0, input@),
                consumed <= fed <= input@.len(),
                fed - consumed <= self.lookahead_size,
                self.queued() == input@.subrange(consumed as int, fed as int),
                self.window() == slide_all(win0, input@.subrange(0, consumed as int)),
                all == done + encode_tokens(
                    l,
                    self.window(),
                    input@.subrange(consumed as int, input@.len() as int),
                ),
                byte_buffer.wf(),
                bits_of(out@) + byte_buffer.pending() == tokens_bits(done, w, l),
            ensures
                self.parts_wf(),
                self.same_shape(old(self)),
                self.queued().len() == 0,
                consumed == input@.len(),
                self.window() == slide_all(win0, input@.subrange(0, consumed as int)),
                all == done,
                byte_buffer.wf(),
                bits_of(out@) + byte_buffer.pending() == tokens_bits(done, w, l),
            decreases input@.len() - consumed,
        {
            proof {
                self.lemma_sizes();
            }
            while queue_len(&self.lookahead) < self.lookahead_size && fed < input.len()
                invariant
                    self.parts_wf(),
                    self.same_shape(old(self)),
                    consumed <= fed <= input@.len(),
                    fed - consumed <= self.lookahead_size,
                    self.lookahead_size <= 65536,
                    self.queued() == input@.subrange(consumed as int, fed as int),
                    self.window() == slide_all(win0, input@.subrange(0, consumed as int)),
                decreases input@.len() - fed,
            {
                queue_push_back(&mut self.lookahead, input[fed]);
                assert(input@.subrange(consumed as int, fed + 1) =~= input@.subrange(
                    consumed as int,
                    fed as int,
                ).push(input@[fed as int]));
                fed = fed + 1;
            }
            let ghost rest = input@.subrange(consumed as int, input@.len() as int);
            if queue_len(&self.lookahead) == 0 {
                proof {
                    assert(rest.len() == 0);
                    assert(all =~= done);
                }
                break;
            }
            let ghost win = self.window();
            let literal_byte = match queue_pop_front(&mut self.lookahead) {
                Some(byte) => byte,
                None => {
                    break;
                },
            };
            let ghost la = self.queued();
            proof {
                assert(literal_byte == rest[0]);
                assert(fed - consumed == lookahead_end(l, rest.len()));
                assert(la =~= rest.subrange(1, lookahead_end(l, rest.len())));
            }
            let count = self.encode_step(&mut byte_buffer, &mut out, literal_byte);
            proof {
                let token = step_token(win, literal_byte, la);
                lemma_tokens_bits_push(done, token, w, l);
                let taken = rest.subrange(0, count as int);
                assert((seq![literal_byte] + la).subrange(0, count as int) =~= taken);
                lemma_slide_all_compose(win0, input@.subrange(0, consumed as int), taken);
                assert(input@.subrange(0, consumed as int) + taken =~= input@.subrange(
                    0,
                    consumed + count,
                ));
                assert(self.queued() =~= input@.subrange(consumed + count, fed as int));
                assert(rest.subrange(count as int, rest.len() as int) =~= input@.subrange(
                    consumed + count,
                    input@.len() as int,
                ));
                assert(encode_tokens(l, win, rest) =~= seq![token] + encode_tokens(
                    l,
                    slide_all(win, taken),
                    rest.subrange(count as int, rest.len() as int),
                ));
                assert(done + encode_tokens(l, win, rest) =~= done.push(token) + encode_tokens(
                    l,
                    slide_all(win, taken),
                    rest.subrange(count as int, rest.len() as int),
                ));
                done = done.push(token);
            }
            consumed = consumed + count;
        }
        let ghost pending = byte_buffer.pending();
        let ghost body = bits_of(out@);
        let last = byte_buffer.last_byte();
        if let Some(byte) = last {
            proof {
                lemma_bits_of_push(out@, byte);
            }
            out.push(byte);
        }
        proof {
            assert(input@.subrange(0, consumed as int) =~= input@);
            assert(body.len() == 8 * out@.len() || body.len() + 8 == 8 * out@.len());
            assert(zero_pad(pending.len()) =~= zero_pad((body + pending).len()));
            assert(bits_of(out@) =~= body + pending + zero_pad(pending.len()));
        }
        out
    }

    /// Reads the distance field of a back-reference whose tag bit ends at the reader's position.
    /// `None` when the bits run out first.
    fn read_distance(&self, reader: &mut BitsBytesIter) -> (r: Option<usize>)
        requires
            self.sizes_wf(),
            old(reader).wf(),
        ensures
            final(reader).wf(),
            final(reader).data() == old(reader).data(),
            ({
                let b = old(reader).stream();
                let p = old(reader).position();
                let q = p + distance_width(self.window_bits as nat);
                &&& r.is_none() ==> q > b.len()
                &&& r.is_some() ==> final(reader).position() == q
                &&& r.is_some() && q <= b.len() ==> r.unwrap() == bits_value(b.subrange(p, q))
            }),
    {
        let ghost b = reader.stream();
        let ghost p = reader.position();
        proof {
            lemma2_to64();
            reader.lemma_position_bounds();
        }
        if self.window_bits > 8 {
            let msb = reader.next();
            let lsb = reader.next();
            match (msb, lsb) {
                (Some(m), Some(s)) => {
                    proof {
                        if p + 16 <= b.len() {
                            let hi = b.subrange(p, p + 8);
                            let lo = b.subrange(p + 8, p + 16);
                            assert(padded_bits(b, p, 8) =~= hi);
                            assert(padded_bits(b, p + 8, 8) =~= lo);
                            assert(hi.subrange(0, 8) =~= hi);
                            assert(lo.subrange(0, 8) =~= lo);
                            lemma_bits_value_bound(hi);
                            lemma_bits_value_bound(lo);
                            lemma_bits_value_concat(hi, lo);
                            assert(hi + lo =~= b.subrange(p, p + 16));
                        }
                    }
                    Some((m as usize) * 256 + (s as usize))
                },
                _ => None,
            }
        } else {
            match reader.next() {
                Some(m) => {
                    proof {
                        if p + 8 <= b.len() {
                            let hi = b.subrange(p, p + 8);
                            assert(padded_bits(b, p, 8) =~= hi);
                            assert(hi.subrange(0, 8) =~= hi);
                            lemma_bits_value_bound(hi);
                        }
                    }
                    Some(m as usize)
                },
                None => None,
            }
        }
    }

    /// Reads the length field of a back-reference and returns the length: the field plus one.
    /// `None` when the bits run out first.
    fn read_length(&self, reader: &mut BitsBytesIter) -> (r: Option<usize>)
        requires
            self.sizes_wf(),
            old(reader).wf(),
        ensures
            final(reader).wf(),
            final(reader).data() == old(reader).data(),
            r.is_none() <==> old(reader).position() + self.length_bits > old(reader).stream().len(),
            r.is_some() ==> final(reader).position() == old(reader).position() + self.length_bits,
            r.is_some() ==> r.unwrap() == bits_value(
                old(reader).stream().subrange(
                    old(reader).position(),
                    old(reader).position() + self.length_bits,
                ),
            ) + 1,
    {
        let ghost b = reader.stream();
        let ghost q = reader.position();
        proof {
            reader.lemma_position_bounds();
        }
        let mut count_bits: Vec<bool> = Vec::new();
        let mut i: usize = 0;
        while i < self.length_bits
            invariant
                self.sizes_wf(),
                i <= self.length_bits,
                reader.wf(),
                reader.data() == old(reader).data(),
                b == reader.stream(),
                q == old(reader).position(),
                b == old(reader).stream(),
                reader.position() == q + i,
                i == 0 || q + i <= b.len(),
                count_bits@ == Seq::new(i as nat, |k: int| b[q + k]),
            decreases self.length_bits - i,
        {
            match reader.next_bit() {
                Some(bit) => {
                    count_bits.push(bit);
                    assert(count_bits@ =~= Seq::new((i + 1) as nat, |k: int| b[q + k]));
                },
                None => {
                    assert(q + i >= b.len());
                    assert(q + self.length_bits > b.len());
                    return None;
                },
            }
            i = i + 1;
        }
        let count = self.read_number_from_bits(&count_bits);
        proof {
            assert(count_bits@ =~= b.subrange(q, q + self.length_bits));
            lemma_bits_value_bound(count_bits@);
            lemma2_to64();
            if self.length_bits < 16 {
                lemma_pow2_strictly_increases(self.length_bits as nat, 16);
            }
        }
        Some(count + 1)
    }

    /// Copies `count` bytes from `back_ref_index` behind the newest, one at a time, each pushed
    /// into the window before the next is read.
    fn copy_back_reference(&mut self, out: &mut Vec<u8>, back_ref_index: usize, count: usize)
        requires
            old(self).parts_wf(),
            back_ref_index < old(self).window_size,
        ensures
            final(self).parts_wf(),
            final(self).same_shape(old(self)),
            final(self).queued() == old(self).queued(),
            final(out)@
                == old(out)@ + copy_run(old(self).window(), back_ref_index as nat, count as nat),
            final(self).window() == slide_all(
                old(self).window(),
                copy_run(old(self).window(), back_ref_index as nat, count as nat),
            ),
    {
        let ghost win = self.window();
        let ghost start = out@;
        let mut k: usize = 0;
        proof {
            self.lemma_sizes();
        }
        assert(slide_all(win, Seq::<u8>::empty()) =~= win);
        assert(out@ =~= start + copy_run(win, back_ref_index as nat, 0));
        while k < count
            invariant
                k <= count,
                self.parts_wf(),
                self.same_shape(old(self)),
                self.queued() == old(self).queued(),
                back_ref_index < self.window_size,
                win.len() == self.window_size,
                out@ == start + copy_run(win, back_ref_index as nat, k as nat),
                self.window() == slide_all(win, copy_run(win, back_ref_index as nat, k as nat)),
            decreases count - k,
        {
            let ghost prev = copy_run(win, back_ref_index as nat, k as nat);
            let output_byte = self.get_window_value(back_ref_index);
            self.push_window_value(output_byte);
            out.push(output_byte);
            proof {
                lemma_slide_all_compose(win, prev, seq![output_byte]);
                assert(prev + seq![output_byte] =~= copy_run(win, back_ref_index as nat, (k + 1) as nat));
            }
            k = k + 1;
        }
    }

    /// Decompresses `input`, continuing from the current window. Decoding ends where the bits
    /// run out, also in the middle of a token, and before a back-reference that reaches past the
    /// window. The window then holds the newest bytes produced.
    pub fn decode(&mut self, input: &[u8]) -> (r: Vec<u8>)
        requires
            old(self).wf(),
        ensures
            final(self).wf(),
            final(self).window_bits() == old(self).window_bits(),
            final(self).length_bits() == old(self).length_bits(),
            r@ == decode_run(
                old(self).window_bits(),
                old(self).length_bits(),
                old(self).window(),
                bits_of(input@),
                0,
            ),
            final(self).window() == slide_all(old(self).window(), r@),
    {
        let ghost w = self.window_bits as nat;
        let ghost l = self.length_bits as nat;
        let ghost win0 = self.window();
        let ghost b = bits_of(input@);
        let mut bb_iter = BitsBytesIter::new(input);
        let mut out: Vec<u8> = Vec::new();
        assert(slide_all(win0, Seq::<u8>::empty()) =~= win0);
        assert(decode_run(w, l, win0, b, 0) =~= out@ + decode_run(w, l, win0, b, 0));
        loop
            invariant
                self.parts_wf(),
                self.queued().len() == 0,
                self.same_shape(old(self)),
                w == self.window_bits,
                l == self.length_bits,
                win0 == old(self).window(),
                bb_iter.wf(),
                bb_iter.data() == input@,
                b == bb_iter.stream(),
                decode_run(w, l, win0, b, 0)
                    == out@ + decode_run(w, l, self.window(), b, bb_iter.position()),
                self.window() == slide_all(win0, out@),
            decreases 8 * input@.len() + 8 - bb_iter.position(),
        {
            proof {
                bb_iter.lemma_position_bounds();
                self.lemma_sizes();
            }
            let ghost p = bb_iter.position();
            let ghost win = self.window();
            let ghost before = out@;
            match bb_iter.next_bit() {
                None => {
                    assert(out@ + decode_run(w, l, win, b, p) =~= out@);
                    return out;
                },
                Some(true) => {
                    match bb_iter.next() {
                        None => {
                            assert(out@ + decode_run(w, l, win, b, p) =~= out@);
                            return out;
                        },
                        Some(byte) => {
                            self.push_window_value(byte);
                            out.push(byte);
                            proof {
                                lemma_slide_all_compose(win0, before, seq![byte]);
                                assert(decode_run(w, l, win, b, p) =~= seq![byte] + decode_run(
                                    w,
                                    l,
                                    slide_all(win, seq![byte]),
                                    b,
                                    p + 9,
                                ));
                                assert(before + decode_run(w, l, win, b, p) =~= out@ + decode_run(
                                    w,
                                    l,
                                    self.window(),
                                    b,
                                    p + 9,
                                ));
                            }
                        },
                    }
                },
                Some(false) => {
                    let back_ref_index = match self.read_distance(&mut bb_iter) {
                        Some(d) => d,
                        None => {
                            assert(out@ + decode_run(w, l, win, b, p) =~= out@);
                            return out;
                        },
                    };
                    let count = match self.read_length(&mut bb_iter) {
                        Some(n) => n,
                        None => {
                            assert(out@ + decode_run(w, l, win, b, p) =~= out@);
                            return out;
                        },
                    };
                    if back_ref_index >= self.window_size {
                        assert(out@ + decode_run(w, l, win, b, p) =~= out@);
                        return out;
                    }
                    let ghost run = copy_run(win, back_ref_index as nat, count as nat);
                    self.copy_back_reference(&mut out, back_ref_index, count);
                    proof {
                        let q = p + 1 + distance_width(w);
                        lemma_slide_all_compose(win0, before, run);
                        assert(decode_run(w, l, win, b, p) =~= run + decode_run(
                            w,
                            l,
                            slide_all(win, run),
                            b,
                            q + l,
                        ));
                        assert(before + decode_run(w, l, win, b, p) =~= out@ + decode_run(
                            w,
                            l,
                            self.window(),
                            b,
                            q + l,
                        ));
                    }
                },
            }
        }
    }
}

} // verus!
