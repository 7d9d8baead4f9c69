//! What the codec computes, stated over sequences: the token stream of the greedy encoder, its
//! bits, and the decoding of a bit stream.
use vstd::prelude::*;
use vstd::arithmetic::power2::{lemma2_to64, lemma_pow2_pos, lemma_pow2_strictly_increases, pow2};
use crate::bits::{
    bits_value, byte_bits, byte_from_bits, lemma_byte_from_own_bits, lemma_value_bits_round_trip,
    padded_bits, value_bits, zero_pad,
};

verus! {

/// One unit of the compressed format.
pub enum Token {
    /// A byte copied as it is.
    Literal(u8),
    /// `length` bytes copied from `distance` positions behind the newest byte of the window
    /// (0 is the newest).
    BackReference { distance: usize, length: usize },
}

/// Width of the distance field: two bytes once the window exceeds 256 bytes, else one.
pub open spec fn distance_width(w: nat) -> nat {
    if w > 8 {
        16
    } else {
        8
    }
}

/// A window of `2^w` bytes, all zero.
pub open spec fn fresh_window(w: nat) -> Seq<u8> {
    Seq::new(pow2(w), |i: int| 0u8)
}

/// The window after `bytes` are pushed: the newest bytes, as many as the window holds.
pub open spec fn slide_all(win: Seq<u8>, bytes: Seq<u8>) -> Seq<u8> {
    (win + bytes).subrange(bytes.len() as int, (win.len() + bytes.len()) as int)
}

/// The bits of one token: a tag bit, then the byte or the distance and the length less one.
pub open spec fn token_bits(t: Token, w: nat, l: nat) -> Seq<bool> {
    match t {
        Token::Literal(b) => seq![true] + byte_bits(b),
        Token::BackReference { distance, length } => seq![false] + value_bits(
            distance as nat,
            distance_width(w),
        ) + value_bits((length - 1) as nat, l),
    }
}

/// The bits of a token sequence, one token after another.
pub open spec fn tokens_bits(ts: Seq<Token>, w: nat, l: nat) -> Seq<bool>
    decreases ts.len(),
{
    if ts.len() == 0 {
        seq![]
    } else {
        token_bits(ts[0], w, l) + tokens_bits(ts.drop_first(), w, l)
    }
}

/// How many leading elements `a` and `b` share.
pub open spec fn common_prefix(a: Seq<u8>, b: Seq<u8>) -> nat
    decreases a.len(),
{
    if a.len() == 0 || b.len() == 0 || a[0] != b[0] {
        0
    } else {
        1 + common_prefix(a.drop_first(), b.drop_first())
    }
}

/// Length of the match that starts at window position `j` (0 is the oldest): the byte there
/// must be `lit`, and the window bytes after it are compared with the lookahead `la` in turn.
/// Zero where the byte differs.
pub open spec fn match_len(win: Seq<u8>, lit: u8, la: Seq<u8>, j: int) -> nat {
    if 0 <= j < win.len() && win[j] == lit {
        1 + common_prefix(win.subrange(j + 1, win.len() as int), la)
    } else {
        0
    }
}

/// Position `j` holds the longest match, of at least three bytes, and no earlier position holds
/// one as long.
pub open spec fn is_best_match(win: Seq<u8>, lit: u8, la: Seq<u8>, j: int) -> bool {
    &&& 0 <= j < win.len()
    &&& match_len(win, lit, la, j) >= 3
    &&& forall|k: int| 0 <= k < win.len() ==> #[trigger] match_len(win, lit, la, k) <= match_len(win, lit, la, j)
    &&& forall|k: int| 0 <= k < j ==> #[trigger] match_len(win, lit, la, k) < match_len(win, lit, la, j)
}

pub open spec fn has_match(win: Seq<u8>, lit: u8, la: Seq<u8>) -> bool {
    exists|j: int| is_best_match(win, lit, la, j)
}

pub open spec fn best_position(win: Seq<u8>, lit: u8, la: Seq<u8>) -> int {
    choose|j: int| is_best_match(win, lit, la, j)
}

/// Where the lookahead ends: it holds at most `2^l` bytes, the literal among them.
pub open spec fn lookahead_end(l: nat, len: nat) -> int {
    if pow2(l) < len {
        pow2(l) as int
    } else {
        len as int
    }
}

/// The token the greedy encoder picks for literal `lit` with lookahead `la` after it: the best
/// match if there is one, else the literal.
pub open spec fn step_token(win: Seq<u8>, lit: u8, la: Seq<u8>) -> Token {
    if has_match(win, lit, la) {
        let j = best_position(win, lit, la);
        Token::BackReference {
            distance: (win.len() - 1 - j) as usize,
            length: match_len(win, lit, la, j) as usize,
        }
    } else {
        Token::Literal(lit)
    }
}

/// How many input bytes a token stands for.
pub open spec fn token_len(t: Token) -> nat {
    match t {
        Token::Literal(_) => 1,
        Token::BackReference { length, .. } => length as nat,
    }
}

/// The tokens the greedy encoder emits for `input`, starting from window `win`.
pub open spec fn encode_tokens(l: nat, win: Seq<u8>, input: Seq<u8>) -> Seq<Token>
    decreases input.len(),
{
    if input.len() == 0 {
        seq![]
    } else {
        let t = step_token(win, input[0], input.subrange(1, lookahead_end(l, input.len())));
        let n = token_len(t);
        if 1 <= n <= input.len() {
            seq![t] + encode_tokens(
                l,
                slide_all(win, input.subrange(0, n as int)),
                input.subrange(n as int, input.len() as int),
            )
        } else {
            seq![]
        }
    }
}

/// The compressed bits of `input`, before padding to a byte boundary.
pub open spec fn encoded_bits(w: nat, l: nat, win: Seq<u8>, input: Seq<u8>) -> Seq<bool> {
    tokens_bits(encode_tokens(l, win, input), w, l)
}

/// The bytes a back-reference produces: each is read `d` behind the newest byte and pushed into
/// the window before the next is read, so a run may copy bytes it has just produced.
pub open spec fn copy_run(win: Seq<u8>, d: nat, n: nat) -> Seq<u8>
    decreases n,
{
    if n == 0 {
        seq![]
    } else {
        let prev = copy_run(win, d, (n - 1) as nat);
        let cur = slide_all(win, prev);
        prev.push(cur[cur.len() - 1 - d])
    }
}

/// The bytes decoded from bit position `p` of `b` with window `win`. Decoding stops where a
/// token is cut short by the end of the bits, and before a back-reference that reaches past
/// the window.
pub open spec fn decode_run(w: nat, l: nat, win: Seq<u8>, b: Seq<bool>, p: int) -> Seq<u8>
    decreases b.len() - p,
{
    if p < 0 || p >= b.len() {
        seq![]
    } else if b[p] {
        if p + 1 >= b.len() {
            seq![]
        } else {
            let x = byte_from_bits(padded_bits(b, p + 1, 8));
            if p + 9 >= b.len() {
                seq![x]
            } else {
                seq![x] + decode_run(w, l, slide_all(win, seq![x]), b, p + 9)
            }
        }
    } else {
        let q = p + 1 + distance_width(w);
        if q + l > b.len() || l == 0 {
            seq![]
        } else {
            let d = bits_value(b.subrange(p + 1, q));
            let n = bits_value(b.subrange(q, q + l)) + 1;
            if d >= win.len() {
                seq![]
            } else {
                let out = copy_run(win, d, n);
                out + decode_run(w, l, slide_all(win, out), b, q + l)
            }
        }
    }
}

/// The shared prefix is no longer than either sequence, and they agree along it.
pub proof fn lemma_common_prefix(a: Seq<u8>, b: Seq<u8>)
    ensures
        common_prefix(a, b) <= a.len(),
        common_prefix(a, b) <= b.len(),
        forall|i: int| 0 <= i < common_prefix(a, b) ==> a[i] == b[i],
    decreases a.len(),
{
    if !(a.len() == 0 || b.len() == 0 || a[0] != b[0]) {
        lemma_common_prefix(a.drop_first(), b.drop_first());
        assert forall|i: int| 0 <= i < common_prefix(a, b) implies a[i] == b[i] by {
            if i > 0 {
                assert(a.drop_first()[i - 1] == b.drop_first()[i - 1]);
            }
        }
    }
}

/// A length along which `a` and `b` agree, and at which one ends or they differ, is their
/// common prefix.
pub proof fn lemma_common_prefix_exact(a: Seq<u8>, b: Seq<u8>, k: nat)
    requires
        k <= a.len(),
        k <= b.len(),
        forall|i: int| 0 <= i < k ==> a[i] == b[i],
        k == a.len() || k == b.len() || a[k as int] != b[k as int],
    ensures
        common_prefix(a, b) == k,
    decreases k,
{
    if k > 0 {
        let a1 = a.drop_first();
        let b1 = b.drop_first();
        assert forall|i: int| 0 <= i < k - 1 implies a1[i] == b1[i] by {
            assert(a[i + 1] == b[i + 1]);
        }
        lemma_common_prefix_exact(a1, b1, (k - 1) as nat);
    }
}

/// The bits of two token sequences in a row are the bits of each in turn.
pub proof fn lemma_tokens_bits_concat(a: Seq<Token>, b: Seq<Token>, w: nat, l: nat)
    ensures
        tokens_bits(a + b, w, l) == tokens_bits(a, w, l) + tokens_bits(b, w, l),
    decreases a.len(),
{
    if a.len() == 0 {
        assert(a + b =~= b);
        assert(tokens_bits(a, w, l) + tokens_bits(b, w, l) =~= tokens_bits(b, w, l));
    } else {
        assert((a + b).drop_first() =~= a.drop_first() + b);
        lemma_tokens_bits_concat(a.drop_first(), b, w, l);
        assert(tokens_bits(a + b, w, l) =~= token_bits(a[0], w, l) + (tokens_bits(a.drop_first(), w, l) + tokens_bits(b, w, l)));
    }
}

pub proof fn lemma_tokens_bits_push(ts: Seq<Token>, t: Token, w: nat, l: nat)
    ensures
        tokens_bits(ts.push(t), w, l) == tokens_bits(ts, w, l) + token_bits(t, w, l),
{
    lemma_tokens_bits_concat(ts, seq![t], w, l);
    assert(ts + seq![t] =~= ts.push(t));
    assert(seq![t].drop_first() =~= Seq::<Token>::empty());
    assert(tokens_bits(Seq::<Token>::empty(), w, l) == Seq::<bool>::empty());
    assert(seq![t][0] == t);
    assert(tokens_bits(seq![t], w, l) =~= token_bits(t, w, l) + Seq::<bool>::empty());
    assert(tokens_bits(seq![t], w, l) =~= token_bits(t, w, l));
}

/// Pushing two runs of bytes one after the other is pushing them together.
pub proof fn lemma_slide_all_compose(win: Seq<u8>, a: Seq<u8>, b: Seq<u8>)
    ensures
        slide_all(slide_all(win, a), b) =~= slide_all(win, a + b),
{
}

/// At most one position holds the best match.
pub proof fn lemma_best_match_unique(win: Seq<u8>, lit: u8, la: Seq<u8>, i: int, j: int)
    requires
        is_best_match(win, lit, la, i),
        is_best_match(win, lit, la, j),
    ensures
        i == j,
{
    assert(match_len(win, lit, la, i) == match_len(win, lit, la, j));
    if i < j {
        assert(match_len(win, lit, la, i) < match_len(win, lit, la, j));
    } else if j < i {
        assert(match_len(win, lit, la, j) < match_len(win, lit, la, i));
    }
}

/// A match is no longer than the lookahead after the literal, plus the literal itself, and no
/// longer than what is left of the window.
pub proof fn lemma_match_len_bound(win: Seq<u8>, lit: u8, la: Seq<u8>, j: int)
    requires
        0 <= j < win.len(),
        win[j] == lit,
    ensures
        match_len(win, lit, la, j) <= la.len() + 1,
        j + match_len(win, lit, la, j) <= win.len(),
        forall|i: int| 0 <= i < match_len(win, lit, la, j) - 1 ==> win[j + 1 + i] == la[i],
{
    let a = win.subrange(j + 1, win.len() as int);
    lemma_common_prefix(a, la);
    assert forall|i: int| 0 <= i < match_len(win, lit, la, j) - 1 implies win[j + 1 + i] == la[i] by {
        assert(a[i] == la[i]);
    }
}

/// A back-reference whose source run lies inside the window copies that run.
pub proof fn lemma_copy_run_in_window(win: Seq<u8>, d: nat, n: nat)
    requires
        d < win.len(),
        win.len() - 1 - d + n <= win.len(),
    ensures
        copy_run(win, d, n) =~= win.subrange(win.len() - 1 - d, win.len() - 1 - d + n),
    decreases n,
{
    if n > 0 {
        lemma_copy_run_in_window(win, d, (n - 1) as nat);
    }
}

/// The token the encoder picks stands for at least one byte and at most what is left, and its
/// fields fit their widths.
pub proof fn lemma_step_token(w: nat, l: nat, win: Seq<u8>, input: Seq<u8>)
    requires
        1 <= w <= 16,
        1 <= l <= 16,
        win.len() == pow2(w),
        input.len() > 0,
    ensures
        ({
            let la = input.subrange(1, lookahead_end(l, input.len()));
            let t = step_token(win, input[0], la);
            let n = token_len(t);
            &&& 1 <= n <= input.len()
            &&& n <= pow2(l)
            &&& t matches Token::BackReference { distance, length } ==> {
                &&& distance < win.len()
                &&& length == n
                &&& copy_run(win, distance as nat, n) == input.subrange(0, n as int)
            }
            &&& t matches Token::Literal(b) ==> b == input[0] && n == 1
        }),
{
    let lit = input[0];
    let end = lookahead_end(l, input.len());
    let la = input.subrange(1, end);
    lemma_pow2_pos(l);
    lemma2_to64();
    if l < 16 {
        lemma_pow2_strictly_increases(l, 16);
    }
    if has_match(win, lit, la) {
        let j = best_position(win, lit, la);
        assert(is_best_match(win, lit, la, j));
        lemma_match_len_bound(win, lit, la, j);
        let n = match_len(win, lit, la, j);
        let d = (win.len() - 1 - j) as nat;
        lemma_copy_run_in_window(win, d, n);
        assert(win.subrange(j, j + n) =~= input.subrange(0, n as int)) by {
            assert forall|i: int| 0 <= i < n implies #[trigger] win.subrange(j, j + n)[i] == input[i] by {
                if i > 0 {
                    assert(win[j + 1 + (i - 1)] == la[i - 1]);
                }
            }
        }
    }
}

/// Decoding a literal token the encoder wrote.
proof fn lemma_decode_literal(w: nat, l: nat, win: Seq<u8>, lit: u8, b: Seq<bool>, p: int)
    requires
        1 <= l,
        0 <= p,
        p + 9 <= b.len(),
        b.subrange(p, p + 9) == token_bits(Token::Literal(lit), w, l),
    ensures
        decode_run(w, l, win, b, p)
            == seq![lit] + decode_run(w, l, slide_all(win, seq![lit]), b, p + 9),
{
    let tb = token_bits(Token::Literal(lit), w, l);
    assert(b[p] == tb[0]);
    assert(padded_bits(b, p + 1, 8) =~= byte_bits(lit)) by {
        assert forall|i: int| 0 <= i < 8 implies #[trigger] padded_bits(b, p + 1, 8)[i] == byte_bits(lit)[i] by {
            assert(b[p + 1 + i] == tb[1 + i]);
        }
    }
    lemma_byte_from_own_bits(lit, byte_bits(lit));
}

/// Decoding a back-reference token the encoder wrote.
proof fn lemma_decode_back_reference(
    w: nat,
    l: nat,
    win: Seq<u8>,
    distance: usize,
    length: usize,
    b: Seq<bool>,
    p: int,
)
    requires
        1 <= w <= 16,
        1 <= l <= 16,
        win.len() == pow2(w),
        distance < win.len(),
        1 <= length <= pow2(l),
        0 <= p,
        p + token_bits(Token::BackReference { distance, length }, w, l).len() <= b.len(),
        b.subrange(p, p + token_bits(Token::BackReference { distance, length }, w, l).len())
            == token_bits(Token::BackReference { distance, length }, w, l),
    ensures
        ({
            let run = copy_run(win, distance as nat, length as nat);
            let next = p + token_bits(Token::BackReference { distance, length }, w, l).len();
            decode_run(w, l, win, b, p) == run + decode_run(w, l, slide_all(win, run), b, next)
        }),
{
    let tb = token_bits(Token::BackReference { distance, length }, w, l);
    let dw = distance_width(w);
    let q = p + 1 + dw;
    let dbits = value_bits(distance as nat, dw);
    let lbits = value_bits((length - 1) as nat, l);
    assert(b[p] == tb[0]);
    assert(b.subrange(p + 1, q) =~= dbits) by {
        assert forall|i: int| 0 <= i < dw implies #[trigger] b.subrange(p + 1, q)[i] == dbits[i] by {
            assert(b[p + 1 + i] == tb[1 + i]);
        }
    }
    assert(b.subrange(q, q + l) =~= lbits) by {
        assert forall|i: int| 0 <= i < l implies #[trigger] b.subrange(q, q + l)[i] == lbits[i] by {
            assert(b[q + i] == tb[1 + dw + i]);
        }
    }
    lemma2_to64();
    if w < dw {
        lemma_pow2_strictly_increases(w, dw);
    }
    lemma_value_bits_round_trip(distance as nat, dw);
    lemma_value_bits_round_trip((length - 1) as nat, l);
}

/// The encoder's bits are those of its first token, then those of the rest of the input.
proof fn lemma_encoded_bits_step(w: nat, l: nat, win: Seq<u8>, input: Seq<u8>)
    requires
        1 <= w <= 16,
        1 <= l <= 16,
        win.len() == pow2(w),
        input.len() > 0,
    ensures
        ({
            let t = step_token(win, input[0], input.subrange(1, lookahead_end(l, input.len())));
            let n = token_len(t);
            let rest = input.subrange(n as int, input.len() as int);
            let win2 = slide_all(win, input.subrange(0, n as int));
            encoded_bits(w, l, win, input) == token_bits(t, w, l) + encoded_bits(w, l, win2, rest)
        }),
{
    let t = step_token(win, input[0], input.subrange(1, lookahead_end(l, input.len())));
    let n = token_len(t);
    let rest = input.subrange(n as int, input.len() as int);
    let win2 = slide_all(win, input.subrange(0, n as int));
    lemma_step_token(w, l, win, input);
    assert(encode_tokens(l, win, input) == seq![t] + encode_tokens(l, win2, rest));
    lemma_tokens_bits_concat(seq![t], encode_tokens(l, win2, rest), w, l);
    assert(seq![t].drop_first() =~= Seq::<Token>::empty());
    assert(tokens_bits(Seq::<Token>::empty(), w, l) == Seq::<bool>::empty());
    assert(tokens_bits(seq![t], w, l) =~= token_bits(t, w, l));
}

/// Where `b` holds `x + y` from position `p`, it holds `x` there and `y` right after.
proof fn lemma_split_at(b: Seq<bool>, p: int, x: Seq<bool>, y: Seq<bool>)
    requires
        0 <= p,
        p + x.len() + y.len() <= b.len(),
        b.subrange(p, p + (x + y).len()) == x + y,
    ensures
        b.subrange(p, p + x.len()) == x,
        b.subrange(p + x.len(), p + x.len() + y.len()) == y,
{
    assert(b.subrange(p, p + x.len()) =~= x) by {
        assert forall|i: int| 0 <= i < x.len() implies #[trigger] b.subrange(p, p + x.len())[i] == x[i] by {
            assert(b.subrange(p, p + (x + y).len())[i] == (x + y)[i]);
        }
    }
    assert(b.subrange(p + x.len(), p + x.len() + y.len()) =~= y) by {
        assert forall|i: int| 0 <= i < y.len() implies #[trigger] b.subrange(
            p + x.len(),
            p + x.len() + y.len(),
        )[i] == y[i] by {
            assert(b.subrange(p, p + (x + y).len())[x.len() + i] == (x + y)[x.len() + i]);
            assert(b[p + x.len() + i] == (x + y)[x.len() + i]);
            assert((x + y)[x.len() + i] == y[i]);
        }
    }
}

/// Decoding the first token the encoder wrote gives the bytes it stands for.
proof fn lemma_decode_step(w: nat, l: nat, win: Seq<u8>, input: Seq<u8>, b: Seq<bool>, p: int)
    requires
        1 <= w <= 16,
        1 <= l <= 16,
        win.len() == pow2(w),
        input.len() > 0,
        0 <= p,
        ({
            let t = step_token(win, input[0], input.subrange(1, lookahead_end(l, input.len())));
            &&& p + token_bits(t, w, l).len() <= b.len()
            &&& b.subrange(p, p + token_bits(t, w, l).len()) == token_bits(t, w, l)
        }),
    ensures
        ({
            let t = step_token(win, input[0], input.subrange(1, lookahead_end(l, input.len())));
            let n = token_len(t);
            let head = input.subrange(0, n as int);
            decode_run(w, l, win, b, p) == head + decode_run(
                w,
                l,
                slide_all(win, head),
                b,
                p + token_bits(t, w, l).len(),
            )
        }),
{
    let t = step_token(win, input[0], input.subrange(1, lookahead_end(l, input.len())));
    lemma_step_token(w, l, win, input);
    match t {
        Token::Literal(lit) => {
            lemma_decode_literal(w, l, win, lit, b, p);
            assert(input.subrange(0, 1) =~= seq![lit]);
        },
        Token::BackReference { distance, length } => {
            lemma_decode_back_reference(w, l, win, distance, length, b, p);
        },
    }
}

/// Decoding the bits of the encoder's tokens, followed by bits that decode to nothing, gives
/// back the encoder's input.
proof fn lemma_decode_encoded(w: nat, l: nat, win: Seq<u8>, input: Seq<u8>, b: Seq<bool>, p: int)
    requires
        1 <= w <= 16,
        1 <= l <= 16,
        win.len() == pow2(w),
        0 <= p,
        p + encoded_bits(w, l, win, input).len() <= b.len(),
        b.subrange(p, p + encoded_bits(w, l, win, input).len()) == encoded_bits(w, l, win, input),
        decode_run(w, l, slide_all(win, input), b, p + encoded_bits(w, l, win, input).len())
            == Seq::<u8>::empty(),
    ensures
        decode_run(w, l, win, b, p) == input,
    decreases input.len(),
{
    if input.len() == 0 {
        assert(slide_all(win, input) =~= win);
    } else {
        let t = step_token(win, input[0], input.subrange(1, lookahead_end(l, input.len())));
        let n = token_len(t);
        lemma_step_token(w, l, win, input);
        let head = input.subrange(0, n as int);
        let rest = input.subrange(n as int, input.len() as int);
        let win2 = slide_all(win, head);
        let tb = token_bits(t, w, l);
        let tail = encoded_bits(w, l, win2, rest);
        lemma_encoded_bits_step(w, l, win, input);
        lemma_split_at(b, p, tb, tail);
        lemma_slide_all_compose(win, head, rest);
        assert(head + rest =~= input);
        lemma_decode_encoded(w, l, win2, rest, b, p + tb.len());
        lemma_decode_step(w, l, win, input, b, p);
    }
}

/// Decoding the encoder's output gives back its input, from any window both start with.
pub proof fn lemma_round_trip(w: nat, l: nat, win: Seq<u8>, input: Seq<u8>)
    requires
        1 <= w <= 16,
        1 <= l <= 16,
        win.len() == pow2(w),
    ensures
        decode_run(
            w,
            l,
            win,
            encoded_bits(w, l, win, input) + zero_pad(encoded_bits(w, l, win, input).len()),
            0,
        ) == input,
{
    let t = encoded_bits(w, l, win, input);
    let z = zero_pad(t.len());
    let b = t + z;
    assert(b.subrange(0, t.len() as int) =~= t);
    let p = t.len() as int;
    if z.len() > 0 {
        assert(b[p] == z[0]);
    }
    assert(decode_run(w, l, slide_all(win, input), b, p) == Seq::<u8>::empty());
    lemma_decode_encoded(w, l, win, input, b, 0);
}

} // verus!
