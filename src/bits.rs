//! Bit sequences, most significant bit first, and the facts that link them to bytes and numbers.
use vstd::prelude::*;
use vstd::arithmetic::div_mod::*;
use vstd::arithmetic::power2::*;
use vstd::bits::lemma_u8_shr_is_div;

verus! {

/// Bit `k` of `b`, where bit 0 is the most significant one.
pub open spec fn msb_bit(b: u8, k: u8) -> bool {
    (b >> ((7 - k) as u8)) & 1u8 == 1u8
}

/// The eight bits of `b`, most significant first.
pub open spec fn byte_bits(b: u8) -> Seq<bool> {
    Seq::new(8, |i: int| msb_bit(b, i as u8))
}

/// The bits of a byte sequence: each byte's bits in turn, most significant first.
pub open spec fn bits_of(s: Seq<u8>) -> Seq<bool> {
    Seq::new(8 * s.len(), |i: int| byte_bits(s[i / 8])[i % 8])
}

/// The bits that a possibly absent byte contributes.
pub open spec fn emitted(r: Option<u8>) -> Seq<bool> {
    match r {
        Some(b) => byte_bits(b),
        None => seq![],
    }
}

/// The zero bits that bring a sequence of `n` bits up to a whole number of bytes.
pub open spec fn zero_pad(n: nat) -> Seq<bool> {
    Seq::new(((8 - n % 8) % 8) as nat, |i: int| false)
}

/// The number a bit sequence spells, most significant bit first.
pub open spec fn bits_value(bits: Seq<bool>) -> nat
    decreases bits.len(),
{
    if bits.len() == 0 {
        0
    } else {
        2 * bits_value(bits.drop_last()) + (if bits.last() {
            1nat
        } else {
            0nat
        })
    }
}

/// The `width` low bits of `v`, most significant first.
pub open spec fn value_bits(v: nat, width: nat) -> Seq<bool> {
    Seq::new(width, |i: int| (v / pow2((width - 1 - i) as nat)) % 2 == 1)
}

/// A value written in `width` bits and read back is unchanged.
pub proof fn lemma_value_bits_round_trip(v: nat, width: nat)
    requires
        v < pow2(width),
    ensures
        bits_value(value_bits(v, width)) == v,
    decreases width,
{
    let s = value_bits(v, width);
    if width == 0 {
        lemma2_to64();
    } else {
        let w1 = (width - 1) as nat;
        lemma_pow2_unfold(width);
        let t = value_bits(v / 2, w1);
        assert forall|i: int| 0 <= i < w1 implies #[trigger] s.drop_last()[i] == t[i] by {
            let e = (w1 - 1 - i) as nat;
            lemma_pow2_unfold((width - 1 - i) as nat);
            lemma_pow2_pos(e);
            lemma_div_denominator(v as int, 2, pow2(e) as int);
        }
        assert(s.drop_last() =~= t);
        lemma2_to64();
        assert(s.last() == ((v / pow2(0)) % 2 == 1));
        assert(v / 1 == v);
        lemma_value_bits_round_trip(v / 2, w1);
    }
}

/// Reading `a + b` as one number: the bits of `a` weigh `2^|b|` each.
pub proof fn lemma_bits_value_concat(a: Seq<bool>, b: Seq<bool>)
    ensures
        bits_value(a + b) == bits_value(a) * pow2(b.len()) + bits_value(b),
    decreases b.len(),
{
    let x = bits_value(a);
    if b.len() == 0 {
        assert(a + b =~= a);
        lemma2_to64();
        assert(x * 1 == x);
    } else {
        let b1 = b.drop_last();
        assert((a + b).drop_last() =~= a + b1);
        assert((a + b).last() == b.last());
        lemma_bits_value_concat(a, b1);
        let p = pow2(b1.len());
        lemma_pow2_unfold(b.len());
        assert(2 * (x * p) == x * (2 * p)) by (nonlinear_arith);
    }
}

/// Splitting a field: the high part holds `v / 2^b`, the low part `v % 2^b`.
pub proof fn lemma_value_bits_split(v: nat, a: nat, b: nat)
    ensures
        value_bits(v, a + b) =~= value_bits(v / pow2(b), a) + value_bits(v % pow2(b), b),
{
    lemma_pow2_pos(b);
    let s = value_bits(v, a + b);
    let hi = value_bits(v / pow2(b), a);
    let lo = value_bits(v % pow2(b), b);
    assert forall|i: int| 0 <= i < a + b implies #[trigger] s[i] == (hi + lo)[i] by {
        if i < a {
            let e = (a - 1 - i) as nat;
            lemma_pow2_adds(e, b);
            assert(pow2(e + b) == pow2(e) * pow2(b));
            assert((a + b - 1 - i) as nat == e + b);
            lemma_pow2_pos(e);
            lemma_div_denominator(v as int, pow2(b) as int, pow2(e) as int);
            assert(pow2(b) * pow2(e) == pow2(e) * pow2(b)) by (nonlinear_arith);
        } else {
            let e = (a + b - 1 - i) as nat;
            let k = (b - e) as nat;
            assert(e < b);
            lemma_pow2_adds(e, k);
            assert(e + k == b);
            lemma_pow2_pos(e);
            lemma_pow2_pos(k);
            let pe = pow2(e) as int;
            let pk = pow2(k) as int;
            let q = v as int / pe;
            lemma_mod_breakdown(v as int, pe, pk);
            lemma_fundamental_div_mod(v as int, pe);
            lemma_fundamental_div_mod_converse(v as int % (pe * pk), pe, q % pk, v as int % pe);
            assert(pe * pk == pow2(b) as int);
            lemma_pow2_unfold(k);
            lemma_pow2_pos((k - 1) as nat);
            lemma_mod_mod(q, 2, pow2((k - 1) as nat) as int);
        }
    }
}

/// The bits of a byte spell its value, so a byte is fixed by its bits.
pub proof fn lemma_byte_bits_value(b: u8)
    ensures
        byte_bits(b) =~= value_bits(b as nat, 8),
        bits_value(byte_bits(b)) == b,
{
    lemma2_to64();
    assert forall|i: int| 0 <= i < 8 implies #[trigger] byte_bits(b)[i] == value_bits(
        b as nat,
        8,
    )[i] by {
        let sh = (7 - i) as u8;
        lemma_u8_shr_is_div(b, sh);
        let y = b >> sh;
        assert((y & 1u8 == 1u8) == (y % 2u8 == 1u8)) by (bit_vector);
    }
    lemma_value_bits_round_trip(b as nat, 8);
}

/// Appending a byte appends its eight bits.
pub proof fn lemma_bits_of_push(s: Seq<u8>, x: u8)
    ensures
        bits_of(s.push(x)) =~= bits_of(s) + byte_bits(x),
{
    let t = s.push(x);
    assert forall|i: int| 0 <= i < 8 * t.len() implies #[trigger] bits_of(t)[i] == (bits_of(s)
        + byte_bits(x))[i] by {
        if i < 8 * s.len() {
            assert(i / 8 < s.len());
        } else {
            assert(i / 8 == s.len());
            assert(i % 8 == i - 8 * s.len());
        }
    }
}

/// Setting bit `i` of `r`, counting from the most significant one.
pub proof fn lemma_set_bit(r: u8, i: u8, k: u8)
    by (bit_vector)
    requires
        i < 8,
        k < 8,
    ensures
        msb_bit(r | (1u8 << ((7 - i) as u8)), k) == (msb_bit(r, k) || k == i),
        !msb_bit(0u8, k),
        ((r & (1u8 << ((7 - i) as u8))) != 0u8) == msb_bit(r, i),
{
}

/// The byte that starts `o` bits into `a` and runs on into `c`.
pub proof fn lemma_shifted_byte(a: u8, c: u8, o: u8, k: u8)
    by (bit_vector)
    requires
        1 <= o < 8,
        k < 8,
    ensures
        msb_bit((a << o) | (c >> ((8 - o) as u8)), k) == if k + o < 8 {
            msb_bit(a, (k + o) as u8)
        } else {
            msb_bit(c, (k + o - 8) as u8)
        },
        msb_bit(a << o, k) == (k + o < 8 && msb_bit(a, (k + o) as u8)),
{
}

/// `width` bits of `b` from position `p` on, reading zeros past its end.
pub open spec fn padded_bits(b: Seq<bool>, p: int, width: nat) -> Seq<bool> {
    Seq::new(width, |i: int| p + i < b.len() && b[p + i])
}

/// The byte whose bits are the first eight of `s`.
pub open spec fn byte_from_bits(s: Seq<bool>) -> u8 {
    bits_value(s.subrange(0, 8)) as u8
}

/// The bytes read one after another from bit position `p` of `b`, zero-filled at the end.
pub open spec fn read_bytes(b: Seq<bool>, p: int) -> Seq<u8>
    decreases b.len() - p,
{
    if p < 0 || p >= b.len() {
        seq![]
    } else if p + 8 >= b.len() {
        seq![byte_from_bits(padded_bits(b, p, 8))]
    } else {
        seq![byte_from_bits(padded_bits(b, p, 8))] + read_bytes(b, p + 8)
    }
}

/// A byte is the byte of its own bits.
pub proof fn lemma_byte_from_own_bits(x: u8, s: Seq<bool>)
    requires
        s.len() == 8,
        byte_bits(x) == s,
    ensures
        byte_from_bits(s) == x,
{
    lemma_byte_bits_value(x);
    assert(s.subrange(0, 8) =~= s);
}

/// Bit `j` of byte `c` sits at position `8c + j` of the stream.
pub proof fn lemma_bits_of_index(s: Seq<u8>, c: int, j: int)
    requires
        0 <= c < s.len(),
        0 <= j < 8,
    ensures
        bits_of(s)[8 * c + j] == byte_bits(s[c])[j],
{
    vstd::arithmetic::div_mod::lemma_fundamental_div_mod_converse(8 * c + j, 8, c, j);
}

/// The byte that starts `offset` bits into `first` and continues into `second`, or into zeros
/// where there is no second byte.
pub fn straddling_byte(first: u8, second: Option<u8>, offset: u8) -> (r: u8)
    requires
        offset < 8,
    ensures
        byte_bits(r) == padded_bits(byte_bits(first) + emitted(second), offset as int, 8),
{
    let ghost s = byte_bits(first) + emitted(second);
    if offset == 0 {
        assert(byte_bits(first) =~= padded_bits(s, 0, 8));
        return first;
    }
    let r = match second {
        Some(next) => (first << offset) | (next >> (8 - offset)),
        None => first << offset,
    };
    assert forall|k: int| 0 <= k < 8 implies #[trigger] byte_bits(r)[k] == padded_bits(
        s,
        offset as int,
        8,
    )[k] by {
        match second {
            Some(next) => {
                lemma_shifted_byte(first, next, offset, k as u8);
            },
            None => {
                lemma_shifted_byte(first, 0u8, offset, k as u8);
            },
        }
    }
    assert(byte_bits(r) =~= padded_bits(s, offset as int, 8));
    r
}

/// The bits from position `8c + o` of a stream, seen from byte `c` and the byte after it.
pub proof fn lemma_window_bits(s: Seq<u8>, c: int, o: int)
    requires
        0 <= c < s.len(),
        0 <= o < 8,
    ensures
        padded_bits(bits_of(s), 8 * c + o, 8) == padded_bits(
            byte_bits(s[c]) + emitted(if c + 1 < s.len() {
                Some(s[c + 1])
            } else {
                None
            }),
            o,
            8,
        ),
{
    let second = if c + 1 < s.len() {
        Some(s[c + 1])
    } else {
        None
    };
    let w = byte_bits(s[c]) + emitted(second);
    assert forall|k: int| 0 <= k < 8 implies #[trigger] padded_bits(bits_of(s), 8 * c + o, 8)[k]
        == padded_bits(w, o, 8)[k] by {
        if o + k < 8 {
            lemma_bits_of_index(s, c, o + k);
        } else if c + 1 < s.len() {
            lemma_bits_of_index(s, c + 1, o + k - 8);
        }
    }
    assert(padded_bits(bits_of(s), 8 * c + o, 8) =~= padded_bits(w, o, 8));
}

/// Read from a byte boundary, whole bytes come back unchanged.
pub proof fn lemma_read_bytes_aligned(s: Seq<u8>, c: int)
    requires
        0 <= c <= s.len(),
    ensures
        read_bytes(bits_of(s), 8 * c) == s.subrange(c, s.len() as int),
    decreases s.len() - c,
{
    if c < s.len() {
        lemma_window_bits(s, c, 0);
        let w = byte_bits(s[c]) + emitted(if c + 1 < s.len() {
            Some(s[c + 1])
        } else {
            None
        });
        assert(padded_bits(w, 0, 8) =~= byte_bits(s[c]));
        lemma_byte_from_own_bits(s[c], byte_bits(s[c]));
        lemma_read_bytes_aligned(s, c + 1);
        assert(8 * c + 8 == 8 * (c + 1));
        assert(s.subrange(c, s.len() as int) =~= seq![s[c]] + s.subrange(c + 1, s.len() as int));
    } else {
        assert(s.subrange(c, s.len() as int) =~= Seq::<u8>::empty());
    }
}

/// A number spelt in `n` bits is below `2^n`.
pub proof fn lemma_bits_value_bound(s: Seq<bool>)
    ensures
        bits_value(s) < pow2(s.len()),
    decreases s.len(),
{
    if s.len() == 0 {
        lemma2_to64();
    } else {
        lemma_bits_value_bound(s.drop_last());
        lemma_pow2_unfold(s.len());
    }
}

} // verus!
