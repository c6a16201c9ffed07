//! The compressed bitstream: its symbols, how they are laid out in frames,
//! and what a decoder makes of an arbitrary byte sequence.
use vstd::prelude::*;

verus! {

/// Number of bits that encode a back-reference offset.
pub const INDEX_BITS: usize = 12;

/// Number of bits that encode a back-reference length.
pub const LENGTH_BITS: usize = 4;

/// Bytes of history a back-reference can reach (`1 << INDEX_BITS`).
pub const WINDOW_SIZE: usize = 4096;

/// Longest match for which two literals cost no more than one back-reference.
pub const BREAK_EVEN: usize = 1;

/// Shortest match that is encoded as a back-reference.
pub const MIN_MATCH: usize = 2;

/// Longest match one back-reference can describe (`(1 << LENGTH_BITS) + BREAK_EVEN`).
pub const LOOK_AHEAD: usize = 17;

/// Symbols governed by one flag byte.
pub const FRAME_SYMBOLS: usize = 8;

/// Why a bitstream could not be decoded into the requested number of bytes.
#[derive(Debug, Clone, Copy, PartialEq, Eq, Structural)]
pub enum DecodeError {
    /// A back-reference points before the first output byte.
    OffsetBeforeStart,
    /// The stream ends in the middle of a two-byte back-reference.
    Truncated,
    /// The stream describes more bytes than the expected size.
    Overrun,
    /// The stream ends before the expected size is reached.
    Underrun,
}

/// One decoded instruction of the bitstream.
pub enum Symbol {
    /// A single byte copied to the output.
    Literal(u8),
    /// Copy `length` bytes one at a time, starting `offset + 1` bytes back.
    Copy { offset: nat, length: nat },
}

/// Appends `length` bytes to `out`, each one the byte `offset + 1` places
/// before it; a copy may read bytes it has itself written.
pub open spec fn copy_back(out: Seq<u8>, offset: nat, length: nat) -> Seq<u8>
    decreases length,
{
    if length == 0 {
        out
    } else {
        copy_back(out.push(out[out.len() - offset - 1]), offset, (length - 1) as nat)
    }
}

pub open spec fn apply(out: Seq<u8>, s: Symbol) -> Seq<u8> {
    match s {
        Symbol::Literal(b) => out.push(b),
        Symbol::Copy { offset, length } => copy_back(out, offset, length),
    }
}

/// The bytes that `syms` append to `out`.
pub open spec fn expand_from(out: Seq<u8>, syms: Seq<Symbol>) -> Seq<u8>
    decreases syms.len(),
{
    if syms.len() == 0 {
        out
    } else {
        expand_from(apply(out, syms[0]), syms.drop_first())
    }
}

pub open spec fn expand(syms: Seq<Symbol>) -> Seq<u8> {
    expand_from(Seq::empty(), syms)
}

/// A symbol can be encoded and, after `out`, reads only bytes already written.
pub open spec fn symbol_fits(out: Seq<u8>, s: Symbol) -> bool {
    match s {
        Symbol::Literal(_) => true,
        Symbol::Copy { offset, length } => MIN_MATCH <= length <= LOOK_AHEAD && offset
            < WINDOW_SIZE && offset < out.len(),
    }
}

pub open spec fn valid_from(out: Seq<u8>, syms: Seq<Symbol>) -> bool
    decreases syms.len(),
{
    if syms.len() == 0 {
        true
    } else {
        symbol_fits(out, syms[0]) && valid_from(apply(out, syms[0]), syms.drop_first())
    }
}

pub open spec fn valid(syms: Seq<Symbol>) -> bool {
    valid_from(Seq::empty(), syms)
}

pub open spec fn is_literal(s: Symbol) -> bool {
    s is Literal
}

/// The two bytes of a back-reference: low offset nibble and length field,
/// then the high eight bits of the offset.
pub open spec fn symbol_bytes(s: Symbol) -> Seq<u8> {
    match s {
        Symbol::Literal(b) => seq![b],
        Symbol::Copy { offset, length } => seq![
            ((offset % 16) * 16 + (length - MIN_MATCH)) as u8,
            (offset / 16) as u8,
        ],
    }
}

pub open spec fn symbols_bytes(syms: Seq<Symbol>) -> Seq<u8>
    decreases syms.len(),
{
    if syms.len() == 0 {
        Seq::empty()
    } else {
        symbol_bytes(syms[0]) + symbols_bytes(syms.drop_first())
    }
}

/// Flag bits of a frame, least significant first: 1 for a literal, 0 for a copy.
pub open spec fn flag_of(syms: Seq<Symbol>) -> nat
    decreases syms.len(),
{
    if syms.len() == 0 {
        0
    } else {
        (if is_literal(syms[0]) {
            1nat
        } else {
            0nat
        }) + 2 * flag_of(syms.drop_first())
    }
}

pub open spec fn bit_weight(n: nat) -> nat
    decreases n,
{
    if n == 0 {
        1
    } else {
        2 * bit_weight((n - 1) as nat)
    }
}

pub open spec fn frame(syms: Seq<Symbol>) -> Seq<u8> {
    seq![flag_of(syms) as u8] + symbols_bytes(syms)
}

/// The bitstream of `syms`: frames of eight symbols, the last one possibly shorter.
pub open spec fn encode(syms: Seq<Symbol>) -> Seq<u8>
    decreases syms.len(),
{
    if syms.len() == 0 {
        Seq::empty()
    } else if syms.len() <= FRAME_SYMBOLS {
        frame(syms)
    } else {
        frame(syms.take(FRAME_SYMBOLS as int)) + encode(syms.skip(FRAME_SYMBOLS as int))
    }
}

/// Decoding of the rest of a stream: `flags` holds the unread flag bits of the
/// current frame and `pending` how many symbols that frame still governs.
pub open spec fn decode_from(
    data: Seq<u8>,
    flags: nat,
    pending: nat,
    out: Seq<u8>,
    size: nat,
) -> Result<Seq<u8>, DecodeError>
    decreases data.len(),
{
    if data.len() == 0 {
        if out.len() == size {
            Ok(out)
        } else {
            Err(DecodeError::Underrun)
        }
    } else if out.len() >= size {
        Err(DecodeError::Overrun)
    } else if pending == 0 {
        decode_from(data.drop_first(), data[0] as nat, FRAME_SYMBOLS as nat, out, size)
    } else if flags % 2 == 1 {
        decode_from(data.drop_first(), flags / 2, (pending - 1) as nat, out.push(data[0]), size)
    } else if data.len() < 2 {
        Err(DecodeError::Truncated)
    } else {
        let offset = (data[1] as nat) * 16 + (data[0] as nat) / 16;
        let length = (data[0] as nat) % 16 + MIN_MATCH;
        if offset >= out.len() {
            Err(DecodeError::OffsetBeforeStart)
        } else if out.len() + length > size {
            Err(DecodeError::Overrun)
        } else {
            decode_from(
                data.subrange(2, data.len() as int),
                flags / 2,
                (pending - 1) as nat,
                copy_back(out, offset, length as nat),
                size,
            )
        }
    }
}

/// What decoding `data` into exactly `size` bytes yields.
pub open spec fn decode(data: Seq<u8>, size: nat) -> Result<Seq<u8>, DecodeError> {
    decode_from(data, 0, 0, Seq::empty(), size)
}


pub proof fn lemma_copy_back_len(out: Seq<u8>, offset: nat, length: nat)
    ensures
        copy_back(out, offset, length).len() == out.len() + length,
    decreases length,
{
    if length > 0 {
        lemma_copy_back_len(out.push(out[out.len() - offset - 1]), offset, (length - 1) as nat);
    }
}

/// A copy whose source run equals the bytes that follow `p` extends a prefix
/// of `x` by exactly those bytes.
pub proof fn lemma_copy_back_prefix(x: Seq<u8>, p: nat, offset: nat, length: nat)
    requires
        offset < p,
        p + length <= x.len(),
        forall|k: int| 0 <= k < length ==> x[p - offset - 1 + k] == #[trigger] x[p + k],
    ensures
        copy_back(x.take(p as int), offset, length) == x.take((p + length) as int),
    decreases length,
{
    if length == 0 {
    } else {
        let pre = x.take(p as int);
        let k0: int = 0;
        assert(x[p - offset - 1 + k0] == x[p + k0]);
        assert(pre[pre.len() - offset - 1] == x[p as int]);
        assert(pre.push(x[p as int]) =~= x.take(p as int + 1));
        assert forall|k: int| 0 <= k < length - 1 implies x[(p + 1) - offset - 1 + k] == #[trigger] x[
            (p + 1) + k] by {
            assert(x[p - offset - 1 + (k + 1)] == x[p + (k + 1)]);
        }
        lemma_copy_back_prefix(x, p + 1, offset, (length - 1) as nat);
    }
}

pub proof fn lemma_expand_push(out: Seq<u8>, syms: Seq<Symbol>, s: Symbol)
    ensures
        expand_from(out, syms.push(s)) == apply(expand_from(out, syms), s),
        valid_from(out, syms.push(s)) == (valid_from(out, syms) && symbol_fits(
            expand_from(out, syms),
            s,
        )),
    decreases syms.len(),
{
    assert(syms.push(s)[0] == if syms.len() == 0 {
        s
    } else {
        syms[0]
    });
    if syms.len() == 0 {
        assert(syms.push(s).drop_first() =~= Seq::<Symbol>::empty());
        reveal_with_fuel(expand_from, 2);
        reveal_with_fuel(valid_from, 2);
    } else {
        assert(syms.push(s).drop_first() =~= syms.drop_first().push(s));
        lemma_expand_push(apply(out, syms[0]), syms.drop_first(), s);
    }
}

/// Every symbol appends at least one byte.
pub proof fn lemma_expand_grows(out: Seq<u8>, syms: Seq<Symbol>)
    requires
        valid_from(out, syms),
    ensures
        expand_from(out, syms).len() >= out.len() + syms.len(),
    decreases syms.len(),
{
    if syms.len() > 0 {
        if let Symbol::Copy { offset, length } = syms[0] {
            lemma_copy_back_len(out, offset, length);
        }
        lemma_expand_grows(apply(out, syms[0]), syms.drop_first());
    }
}

pub proof fn lemma_flag_push(syms: Seq<Symbol>, s: Symbol)
    ensures
        flag_of(syms.push(s)) == flag_of(syms) + (if is_literal(s) {
            bit_weight(syms.len())
        } else {
            0
        }),
    decreases syms.len(),
{
    assert(syms.push(s)[0] == if syms.len() == 0 {
        s
    } else {
        syms[0]
    });
    if syms.len() == 0 {
        assert(syms.push(s).drop_first() =~= Seq::<Symbol>::empty());
        reveal_with_fuel(flag_of, 2);
    } else {
        assert(syms.push(s).drop_first() =~= syms.drop_first().push(s));
        lemma_flag_push(syms.drop_first(), s);
    }
}

pub proof fn lemma_flag_bound(syms: Seq<Symbol>)
    ensures
        flag_of(syms) < bit_weight(syms.len()),
    decreases syms.len(),
{
    if syms.len() > 0 {
        lemma_flag_bound(syms.drop_first());
    }
}

pub proof fn lemma_symbols_push(syms: Seq<Symbol>, s: Symbol)
    ensures
        symbols_bytes(syms.push(s)) == symbols_bytes(syms) + symbol_bytes(s),
    decreases syms.len(),
{
    assert(syms.push(s)[0] == if syms.len() == 0 {
        s
    } else {
        syms[0]
    });
    if syms.len() == 0 {
        assert(syms.push(s).drop_first() =~= Seq::<Symbol>::empty());
        reveal_with_fuel(symbols_bytes, 2);
        assert(symbols_bytes(syms.push(s)) =~= symbol_bytes(s));
    } else {
        assert(syms.push(s).drop_first() =~= syms.drop_first().push(s));
        lemma_symbols_push(syms.drop_first(), s);
        assert(symbols_bytes(syms.push(s)) =~= symbols_bytes(syms) + symbol_bytes(s));
    }
}

/// Appending a frame's worth of symbols after whole frames appends that frame.
pub proof fn lemma_encode_append(done: Seq<Symbol>, cur: Seq<Symbol>)
    requires
        done.len() % (FRAME_SYMBOLS as nat) == 0,
        1 <= cur.len() <= FRAME_SYMBOLS,
    ensures
        encode(done + cur) == encode(done) + frame(cur),
    decreases done.len(),
{
    if done.len() == 0 {
        assert(done + cur =~= cur);
        assert(encode(done) + frame(cur) =~= frame(cur));
    } else {
        let all = done + cur;
        assert(all.take(FRAME_SYMBOLS as int) =~= done.take(FRAME_SYMBOLS as int));
        assert(all.skip(FRAME_SYMBOLS as int) =~= done.skip(FRAME_SYMBOLS as int) + cur);
        lemma_encode_append(done.skip(FRAME_SYMBOLS as int), cur);
        if done.len() == FRAME_SYMBOLS {
            assert(done.skip(FRAME_SYMBOLS as int) =~= Seq::<Symbol>::empty());
            assert(done.take(FRAME_SYMBOLS as int) =~= done);
        }
        assert(encode(all) =~= encode(done) + frame(cur));
    }
}

} // verus!
