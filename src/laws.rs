//! Properties that relate the encoder and the decoder.
use vstd::prelude::*;
use crate::encoder::compressed_form;
use crate::format::{
    apply, bit_weight, copy_back, decode, decode_from, encode, expand, expand_from, flag_of,
    frame, is_literal, lemma_copy_back_len, lemma_expand_grows, lemma_flag_bound, symbol_bytes,
    symbol_fits, symbols_bytes, valid, valid_from, DecodeError, Symbol, FRAME_SYMBOLS, MIN_MATCH,
};

verus! {

pub proof fn lemma_expand_split(out: Seq<u8>, a: Seq<Symbol>, b: Seq<Symbol>)
    ensures
        expand_from(out, a + b) == expand_from(expand_from(out, a), b),
        valid_from(out, a + b) == (valid_from(out, a) && valid_from(expand_from(out, a), b)),
    decreases a.len(),
{
    if a.len() == 0 {
        assert(a + b =~= b);
    } else {
        assert((a + b).drop_first() =~= a.drop_first() + b);
        assert((a + b)[0] == a[0]);
        lemma_expand_split(apply(out, a[0]), a.drop_first(), b);
    }
}

/// The two bytes of a back-reference give back its offset and length; the
/// shortest length, 2, is stored as a length field of 0.
pub proof fn lemma_copy_code(offset: nat, length: nat)
    requires
        offset < 4096,
        MIN_MATCH <= length <= 17,
    ensures
        ({
            let b0 = ((offset % 16) * 16 + (length - MIN_MATCH)) as u8;
            let b1 = (offset / 16) as u8;
            &&& (b1 as nat) * 16 + (b0 as nat) / 16 == offset
            &&& (b0 as nat) % 16 + MIN_MATCH == length
            &&& length == MIN_MATCH ==> (b0 as nat) % 16 == 0
        }),
{
    let lo = offset % 16;
    let hi = offset / 16;
    let c = (length - MIN_MATCH) as nat;
    assert(offset == hi * 16 + lo && lo < 16 && hi < 256) by (nonlinear_arith)
        requires
            offset < 4096,
            lo == offset % 16,
            hi == offset / 16,
    ;
    assert((lo * 16 + c) / 16 == lo && (lo * 16 + c) % 16 == c && lo * 16 + c < 256)
        by (nonlinear_arith)
        requires
            lo < 16,
            c < 16,
    ;
}

proof fn lemma_decode_symbols(
    chunk: Seq<Symbol>,
    pending: nat,
    out: Seq<u8>,
    tail: Seq<u8>,
    size: nat,
)
    requires
        chunk.len() <= pending,
        valid_from(out, chunk),
        expand_from(out, chunk).len() <= size,
    ensures
        decode_from(symbols_bytes(chunk) + tail, flag_of(chunk), pending, out, size) == decode_from(
            tail,
            0,
            (pending - chunk.len()) as nat,
            expand_from(out, chunk),
            size,
        ),
    decreases chunk.len(),
{
    if chunk.len() == 0 {
        assert(symbols_bytes(chunk) + tail =~= tail);
    } else {
        let s = chunk[0];
        let rest = chunk.drop_first();
        let data = symbols_bytes(chunk) + tail;
        assert(data =~= symbol_bytes(s) + (symbols_bytes(rest) + tail));
        lemma_expand_grows(out, chunk);
        lemma_expand_grows(apply(out, s), rest);
        let f = flag_of(chunk);
        let lit: nat = if is_literal(s) {
            1
        } else {
            0
        };
        assert(f == lit + 2 * flag_of(rest));
        assert(f % 2 == lit && f / 2 == flag_of(rest));
        match s {
            Symbol::Literal(b) => {
                assert(data.drop_first() =~= symbols_bytes(rest) + tail);
                lemma_decode_symbols(rest, (pending - 1) as nat, out.push(b), tail, size);
            },
            Symbol::Copy { offset, length } => {
                lemma_copy_code(offset, length);
                lemma_copy_back_len(out, offset, length);
                assert(data.subrange(2, data.len() as int) =~= symbols_bytes(rest) + tail);
                lemma_decode_symbols(
                    rest,
                    (pending - 1) as nat,
                    copy_back(out, offset, length),
                    tail,
                    size,
                );
            },
        }
    }
}

proof fn lemma_decode_frames(syms: Seq<Symbol>, out: Seq<u8>, size: nat)
    requires
        valid_from(out, syms),
        expand_from(out, syms).len() == size,
    ensures
        decode_from(encode(syms), 0, 0, out, size) == Ok::<Seq<u8>, DecodeError>(
            expand_from(out, syms),
        ),
    decreases syms.len(),
{
    if syms.len() > 0 {
        let k: int = if syms.len() <= FRAME_SYMBOLS {
            syms.len() as int
        } else {
            FRAME_SYMBOLS as int
        };
        let chunk = syms.take(k);
        let rest = syms.skip(k);
        assert(syms =~= chunk + rest);
        lemma_expand_split(out, chunk, rest);
        let mid = expand_from(out, chunk);
        lemma_expand_grows(out, chunk);
        lemma_expand_grows(mid, rest);
        if syms.len() <= FRAME_SYMBOLS {
            assert(rest.len() == 0);
            assert(chunk =~= syms);
            assert(encode(syms) =~= frame(chunk) + encode(rest));
        } else {
            assert(encode(syms) == frame(chunk) + encode(rest));
        }
        let data = frame(chunk) + encode(rest);
        lemma_flag_bound(chunk);
        assert(bit_weight(chunk.len()) <= 256) by {
            reveal_with_fuel(bit_weight, 9);
        }
        assert(data[0] as nat == flag_of(chunk));
        assert(data.drop_first() =~= symbols_bytes(chunk) + encode(rest));
        lemma_decode_symbols(chunk, FRAME_SYMBOLS as nat, out, encode(rest), size);
        if rest.len() > 0 {
            lemma_decode_frames(rest, mid, size);
        }
    }
}

/// Round trip: decoding a stream that `compress` produced for `input`, at
/// `input`'s length, gives back `input` exactly.
pub proof fn lemma_round_trip(input: Seq<u8>, stream: Seq<u8>)
    requires
        compressed_form(input, stream),
    ensures
        decode(stream, input.len()) == Ok::<Seq<u8>, DecodeError>(input),
{
    let syms = choose|syms: Seq<Symbol>|
        #![trigger encode(syms)]
        valid(syms) && expand(syms) == input && stream == encode(syms);
    lemma_decode_frames(syms, Seq::empty(), input.len());
}


/// Some two-byte sequence occurs at two different places of `x`.
pub open spec fn has_repeated_pair(x: Seq<u8>) -> bool {
    exists|i: int, j: int|
        0 <= i < j && j + 1 < x.len() && #[trigger] x[i] == #[trigger] x[j] && x[i + 1] == x[j
            + 1]
}

/// One literal symbol per byte of `x`.
pub open spec fn literals_of(x: Seq<u8>) -> Seq<Symbol> {
    x.map_values(|b: u8| Symbol::Literal(b))
}

/// A copy keeps what came before and repeats, at each new place, the byte
/// `offset + 1` places back.
proof fn lemma_copy_back_repeats(out: Seq<u8>, offset: nat, length: nat)
    requires
        offset < out.len(),
    ensures
        copy_back(out, offset, length).len() == out.len() + length,
        forall|k: int| 0 <= k < out.len() ==> #[trigger] copy_back(out, offset, length)[k] == out[k],
        forall|k: int|
            out.len() <= k < out.len() + length ==> #[trigger] copy_back(out, offset, length)[k]
                == copy_back(out, offset, length)[k - offset - 1],
    decreases length,
{
    lemma_copy_back_len(out, offset, length);
    if length > 0 {
        let next = out.push(out[out.len() - offset - 1]);
        lemma_copy_back_repeats(next, offset, (length - 1) as nat);
        let r = copy_back(out, offset, length);
        assert forall|k: int| 0 <= k < out.len() implies #[trigger] r[k] == out[k] by {
            assert(r[k] == next[k]);
        }
        assert forall|k: int| out.len() <= k < out.len() + length implies #[trigger] r[k] == r[k
            - offset - 1] by {
            if k == out.len() {
                assert(r[k] == next[k]);
                assert(r[k - offset - 1] == out[k - offset - 1]);
            }
        }
    }
}

/// What follows `out` never changes it.
proof fn lemma_expand_keeps_prefix(out: Seq<u8>, syms: Seq<Symbol>)
    requires
        valid_from(out, syms),
    ensures
        expand_from(out, syms).len() >= out.len(),
        forall|k: int| 0 <= k < out.len() ==> #[trigger] expand_from(out, syms)[k] == out[k],
    decreases syms.len(),
{
    if syms.len() > 0 {
        let next = apply(out, syms[0]);
        lemma_expand_keeps_prefix(next, syms.drop_first());
        match syms[0] {
            Symbol::Literal(b) => {
                assert forall|k: int| 0 <= k < out.len() implies #[trigger] expand_from(
                    out,
                    syms,
                )[k] == out[k] by {
                    assert(next[k] == out[k]);
                }
            },
            Symbol::Copy { offset, length } => {
                lemma_copy_back_repeats(out, offset, length);
                assert forall|k: int| 0 <= k < out.len() implies #[trigger] expand_from(
                    out,
                    syms,
                )[k] == out[k] by {
                    assert(next[k] == out[k]);
                }
            },
        }
    }
}

/// A valid sequence with a back-reference expands to bytes in which some
/// two-byte sequence repeats.
proof fn lemma_copy_repeats_pair(out: Seq<u8>, syms: Seq<Symbol>, t: int)
    requires
        valid_from(out, syms),
        0 <= t < syms.len(),
        syms[t] is Copy,
    ensures
        has_repeated_pair(expand_from(out, syms)),
    decreases syms.len(),
{
    if t > 0 {
        lemma_copy_repeats_pair(apply(out, syms[0]), syms.drop_first(), t - 1);
    } else {
        if let Symbol::Copy { offset, length } = syms[0] {
            let next = copy_back(out, offset, length);
            lemma_copy_back_repeats(out, offset, length);
            lemma_expand_keeps_prefix(next, syms.drop_first());
            let x = expand_from(out, syms);
            let j = out.len() as int;
            let i = j - offset - 1;
            assert(x[i] == next[i] && x[j] == next[j]);
            assert(x[i + 1] == next[i + 1] && x[j + 1] == next[j + 1]);
            assert(next[j + 1] == next[i + 1]);
            assert(has_repeated_pair(x));
        }
    }
}

proof fn lemma_expand_literals(out: Seq<u8>, syms: Seq<Symbol>)
    requires
        forall|i: int| 0 <= i < syms.len() ==> #[trigger] syms[i] is Literal,
    ensures
        valid_from(out, syms),
        expand_from(out, syms).len() == out.len() + syms.len(),
        forall|k: int|
            0 <= k < syms.len() ==> syms[k] == Symbol::Literal(
                #[trigger] expand_from(out, syms)[out.len() + k],
            ),
    decreases syms.len(),
{
    if syms.len() > 0 {
        let rest = syms.drop_first();
        assert forall|i: int| 0 <= i < rest.len() implies #[trigger] rest[i] is Literal by {
            assert(rest[i] == syms[i + 1]);
        }
        if let Symbol::Literal(b) = syms[0] {
            let next = out.push(b);
            lemma_expand_literals(next, rest);
            lemma_expand_keeps_prefix(next, rest);
            let x = expand_from(out, syms);
            assert forall|k: int| 0 <= k < syms.len() implies syms[k] == Symbol::Literal(
                #[trigger] x[out.len() + k],
            ) by {
                if k == 0 {
                    assert(x[out.len() as int] == next[out.len() as int]);
                } else {
                    assert(syms[k] == rest[k - 1]);
                    assert(x[next.len() + (k - 1)] == x[out.len() + k]);
                }
            }
        }
    }
}

proof fn lemma_encode_literals_len(syms: Seq<Symbol>)
    requires
        forall|i: int| 0 <= i < syms.len() ==> #[trigger] syms[i] is Literal,
    ensures
        encode(syms).len() == syms.len() + (syms.len() + 7) / 8,
    decreases syms.len(),
{
    if syms.len() > 0 {
        let k: int = if syms.len() <= FRAME_SYMBOLS {
            syms.len() as int
        } else {
            FRAME_SYMBOLS as int
        };
        let chunk = syms.take(k);
        let rest = syms.skip(k);
        lemma_symbols_literals_len(chunk);
        if syms.len() <= FRAME_SYMBOLS {
            assert(chunk =~= syms);
        } else {
            assert forall|i: int| 0 <= i < rest.len() implies #[trigger] rest[i] is Literal by {
                assert(rest[i] == syms[i + k]);
            }
            lemma_encode_literals_len(rest);
        }
    }
}

proof fn lemma_symbols_literals_len(syms: Seq<Symbol>)
    requires
        forall|i: int| 0 <= i < syms.len() ==> #[trigger] syms[i] is Literal,
    ensures
        symbols_bytes(syms).len() == syms.len(),
    decreases syms.len(),
{
    if syms.len() > 0 {
        let rest = syms.drop_first();
        assert forall|i: int| 0 <= i < rest.len() implies #[trigger] rest[i] is Literal by {
            assert(rest[i] == syms[i + 1]);
        }
        assert(syms[0] is Literal);
        lemma_symbols_literals_len(rest);
    }
}

/// Input in which no two-byte sequence occurs twice compresses to literals
/// only: the stream is the all-literal encoding, one flag byte for every
/// eight input bytes (the last frame possibly shorter) and each byte as it is.
pub proof fn lemma_literal_only(input: Seq<u8>, stream: Seq<u8>)
    requires
        compressed_form(input, stream),
        !has_repeated_pair(input),
    ensures
        stream == encode(literals_of(input)),
        stream.len() == input.len() + (input.len() + 7) / 8,
{
    let syms = choose|syms: Seq<Symbol>|
        #![trigger encode(syms)]
        valid(syms) && expand(syms) == input && stream == encode(syms);
    assert forall|i: int| 0 <= i < syms.len() implies #[trigger] syms[i] is Literal by {
        if syms[i] is Copy {
            lemma_copy_repeats_pair(Seq::empty(), syms, i);
        }
    }
    lemma_expand_literals(Seq::empty(), syms);
    assert forall|k: int| 0 <= k < syms.len() implies syms[k] == literals_of(input)[k] by {
        assert(syms[k] == Symbol::Literal(expand(syms)[0 + k]));
    }
    assert(syms =~= literals_of(input));
    lemma_encode_literals_len(syms);
}


proof fn lemma_self_copy_byte(out: Seq<u8>, length: nat, m: nat)
    requires
        out.len() > 0,
        m <= length,
    ensures
        copy_back(out, 0, length)[out.len() - 1 + m] == out.last(),
    decreases m,
{
    lemma_copy_back_repeats(out, 0, length);
    let r = copy_back(out, 0, length);
    if m > 0 {
        lemma_self_copy_byte(out, length, (m - 1) as nat);
        assert(r[out.len() - 1 + m] == r[out.len() - 1 + m - 0 - 1]);
    } else {
        assert(r[out.len() - 1] == out[out.len() - 1]);
    }
}

/// A back-reference with offset 0 reads the bytes it writes itself: it
/// repeats the last byte written, `length` times.
pub proof fn lemma_self_copy_run(out: Seq<u8>, length: nat)
    requires
        out.len() > 0,
    ensures
        copy_back(out, 0, length) == out + Seq::new(length, |k: int| out.last()),
{
    lemma_copy_back_repeats(out, 0, length);
    let r = copy_back(out, 0, length);
    let run = Seq::new(length, |k: int| out.last());
    assert forall|k: int| out.len() <= k < out.len() + length implies #[trigger] r[k]
        == out.last() by {
        lemma_self_copy_byte(out, length, (k - (out.len() - 1)) as nat);
    }
    assert(r =~= out + run);
}


/// A non-empty input's stream opens with a literal holding its first byte:
/// there is nothing before it to refer back to.
pub proof fn lemma_first_is_literal(input: Seq<u8>, stream: Seq<u8>)
    requires
        compressed_form(input, stream),
        input.len() > 0,
    ensures
        stream.len() >= 2,
        stream[0] % 2 == 1,
        stream[1] == input[0],
{
    let syms = choose|syms: Seq<Symbol>|
        #![trigger encode(syms)]
        valid(syms) && expand(syms) == input && stream == encode(syms);
    assert(syms.len() > 0);
    if let Symbol::Literal(b) = syms[0] {
        let rest = syms.drop_first();
        lemma_expand_keeps_prefix(seq![b], rest);
        assert(Seq::<u8>::empty().push(b) =~= seq![b]);
        assert(input[0] == b);
        let k: int = if syms.len() <= FRAME_SYMBOLS {
            syms.len() as int
        } else {
            FRAME_SYMBOLS as int
        };
        let chunk = syms.take(k);
        assert(chunk[0] == syms[0]);
        if syms.len() <= FRAME_SYMBOLS {
            assert(chunk =~= syms);
        }
        lemma_flag_bound(chunk);
        assert(bit_weight(chunk.len()) <= 256) by {
            reveal_with_fuel(bit_weight, 9);
        }
        assert(flag_of(chunk) == 1 + 2 * flag_of(chunk.drop_first()));
        assert(stream[0] as nat == flag_of(chunk));
        assert(symbols_bytes(chunk) =~= seq![b] + symbols_bytes(chunk.drop_first()));
        assert(stream[1] == symbols_bytes(chunk)[0]);
    }
}


/// Where back-reference `t` of `syms` lands in the expansion, each byte it
/// writes equals the byte `offset + 1` places before it.
proof fn lemma_copy_in_expansion(syms: Seq<Symbol>, t: int)
    requires
        valid(syms),
        0 <= t < syms.len(),
        syms[t] is Copy,
    ensures
        ({
            let w = expand(syms.take(t)).len() as int;
            let x = expand(syms);
            &&& syms[t]->offset < w
            &&& MIN_MATCH <= syms[t]->length
            &&& w + syms[t]->length <= x.len()
            &&& forall|k: int|
                0 <= k < syms[t]->length ==> #[trigger] x[w + k] == x[w + k - syms[t]->offset - 1]
        }),
{
    let head = syms.take(t);
    let tail = syms.skip(t);
    assert(syms =~= head + tail);
    lemma_expand_split(Seq::empty(), head, tail);
    let mid = expand(head);
    assert(tail[0] == syms[t]);
    if let Symbol::Copy { offset, length } = syms[t] {
        let c = copy_back(mid, offset, length);
        assert(tail.drop_first() =~= syms.skip(t + 1));
        lemma_copy_back_repeats(mid, offset, length);
        lemma_expand_keeps_prefix(c, tail.drop_first());
        let x = expand(syms);
        let w = mid.len() as int;
        assert forall|k: int| 0 <= k < length implies #[trigger] x[w + k] == x[w + k - offset - 1] by {
            assert(x[w + k] == c[w + k]);
            assert(x[w + k - offset - 1] == c[w + k - offset - 1]);
        }
    }
}

/// In a stream that `compress` produced, every back-reference covers at
/// least two bytes and stands where its first two bytes occurred before; a
/// byte whose pair has no earlier occurrence is sent as a literal.
pub proof fn lemma_matches_repeat_earlier_pairs(input: Seq<u8>, stream: Seq<u8>)
    requires
        compressed_form(input, stream),
    ensures
        exists|syms: Seq<Symbol>|
            #![trigger encode(syms)]
            {
                &&& valid(syms)
                &&& expand(syms) == input
                &&& stream == encode(syms)
                &&& forall|t: int|
                    0 <= t < syms.len() && #[trigger] syms[t] is Copy ==> {
                        let w = expand(syms.take(t)).len() as int;
                        &&& syms[t]->length >= MIN_MATCH
                        &&& 0 <= w - syms[t]->offset - 1 < w
                        &&& w + 1 < input.len()
                        &&& input[w - syms[t]->offset - 1] == input[w]
                        &&& input[w - syms[t]->offset] == input[w + 1]
                    }
            },
{
    let syms = choose|syms: Seq<Symbol>|
        #![trigger encode(syms)]
        valid(syms) && expand(syms) == input && stream == encode(syms);
    assert forall|t: int| 0 <= t < syms.len() && #[trigger] syms[t] is Copy implies {
        let w = expand(syms.take(t)).len() as int;
        &&& syms[t]->length >= MIN_MATCH
        &&& 0 <= w - syms[t]->offset - 1 < w
        &&& w + 1 < input.len()
        &&& input[w - syms[t]->offset - 1] == input[w]
        &&& input[w - syms[t]->offset] == input[w + 1]
    } by {
        lemma_copy_in_expansion(syms, t);
        let w = expand(syms.take(t)).len() as int;
        let x = expand(syms);
        assert(x[w + 0] == x[w + 0 - syms[t]->offset - 1]);
        assert(x[w + 1] == x[w + 1 - syms[t]->offset - 1]);
    }
}

/// A back-reference is copied one byte at a time: decoding the stream of a
/// valid symbol sequence gives its expansion, in which each byte that
/// back-reference `t` writes equals the byte `offset + 1` places before it,
/// so a copy that overlaps its own output repeats a pattern of period
/// `offset + 1`.
pub proof fn lemma_overlapping_copy(syms: Seq<Symbol>, t: int)
    requires
        valid(syms),
        0 <= t < syms.len(),
        syms[t] is Copy,
    ensures
        decode(encode(syms), expand(syms).len()) == Ok::<Seq<u8>, DecodeError>(expand(syms)),
        ({
            let w = expand(syms.take(t)).len() as int;
            let x = expand(syms);
            &&& w + syms[t]->length <= x.len()
            &&& forall|k: int|
                0 <= k < syms[t]->length ==> #[trigger] x[w + k] == x[w + k - syms[t]->offset - 1]
        }),
{
    lemma_decode_frames(syms, Seq::empty(), expand(syms).len());
    lemma_copy_in_expansion(syms, t);
}

} // verus!
