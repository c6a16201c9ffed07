//! Greedy encoder: at each position, the longest match that the tree finds
//! becomes a back-reference if it beats the break-even length.
use vstd::prelude::*;
use crate::format::{
    bit_weight, encode, expand, flag_of, lemma_copy_back_prefix, lemma_encode_append,
    lemma_expand_push, lemma_flag_bound, lemma_flag_push, lemma_symbols_push, symbol_bytes,
    symbols_bytes, valid, Symbol, BREAK_EVEN, FRAME_SYMBOLS, MIN_MATCH, WINDOW_SIZE,
};
use crate::match_tree::MatchTree;

verus! {

/// `stream` is the bitstream of some valid symbol sequence that expands to `input`.
pub open spec fn compressed_form(input: Seq<u8>, stream: Seq<u8>) -> bool {
    exists|syms: Seq<Symbol>|
        #![trigger encode(syms)]
        valid(syms) && expand(syms) == input && stream == encode(syms)
}

proof fn lemma_bit_weight_frame(c: nat)
    requires
        c < FRAME_SYMBOLS,
    ensures
        bit_weight(c) <= 128,
        c + 1 < FRAME_SYMBOLS ==> bit_weight(c) <= 64,
        bit_weight(c + 1) == 2 * bit_weight(c),
{
    reveal_with_fuel(bit_weight, 9);
}

/// Moves a finished frame (flag byte, then its symbol bytes) to the output.
fn flush_frame(out: &mut Vec<u8>, frame_bytes: &mut Vec<u8>, flags: u8)
    ensures
        final(out)@ == old(out)@ + seq![flags] + old(frame_bytes)@,
        final(frame_bytes)@.len() == 0,
{
    out.push(flags);
    out.append(frame_bytes);
}

/// Compresses `input` into a bitstream.
///
/// Each position enters the window's match tree; a match longer than the
/// break-even length becomes a back-reference, anything else a literal.
/// Every back-reference is between 2 and 17 bytes long and reaches at most
/// 4096 bytes back.
pub fn compress(input: &[u8]) -> (r: Vec<u8>)
    ensures
        compressed_form(input@, r@),
{
    let n = input.len();
    let mut tree = MatchTree::new();
    let mut out: Vec<u8> = Vec::new();
    let mut frame_bytes: Vec<u8> = Vec::new();
    let mut flags: u8 = 0;
    let mut bit: u8 = 1;
    let mut count: usize = 0;
    let ghost mut done: Seq<Symbol> = Seq::empty();
    let ghost mut cur: Seq<Symbol> = Seq::empty();
    let mut p: usize = 0;
    assert(expand(done + cur) =~= input@.take(0));
    while p < n
        invariant
            n == input@.len(),
            p <= n,
            tree.wf(),
            done.len() % (FRAME_SYMBOLS as nat) == 0,
            count == cur.len(),
            count < FRAME_SYMBOLS,
            out@ == encode(done),
            frame_bytes@ == symbols_bytes(cur),
            flags as nat == flag_of(cur),
            bit as nat == bit_weight(count as nat),
            valid(done + cur),
            expand(done + cur) == input@.take(p as int),
        decreases n - p,
    {
        let ghost p0 = p;
        let ghost all = done + cur;
        proof {
            lemma_bit_weight_frame(count as nat);
            lemma_flag_bound(cur);
        }
        tree.delete(p % WINDOW_SIZE);
        let (len, src) = tree.insert(input, p);
        let ghost mut sym: Symbol = Symbol::Literal(0);
        if len > BREAK_EVEN {
            let offset = p - src - 1;
            frame_bytes.push(((offset % 16) * 16 + (len - MIN_MATCH)) as u8);
            frame_bytes.push((offset / 16) as u8);
            proof {
                sym = Symbol::Copy { offset: offset as nat, length: len as nat };
                assert(symbol_bytes(sym) =~= seq![
                    ((offset % 16) * 16 + (len - MIN_MATCH)) as u8,
                    (offset / 16) as u8,
                ]);
                lemma_copy_back_prefix(input@, p as nat, offset as nat, len as nat);
                lemma_flag_push(cur, sym);
            }
            let mut q = p + 1;
            while q < p + len
                invariant
                    tree.wf(),
                    p + len <= n,
                    n == input@.len(),
                decreases p + len - q,
            {
                tree.delete(q % WINDOW_SIZE);
                let _ = tree.insert(input, q);
                q = q + 1;
            }
            p = p + len;
        } else {
            let b = input[p];
            frame_bytes.push(b);
            flags = flags + bit;
            proof {
                sym = Symbol::Literal(b);
                assert(symbol_bytes(sym) =~= seq![b]);
                assert(input@.take(p0 as int).push(b) =~= input@.take(p0 + 1));
                lemma_flag_push(cur, sym);
            }
            p = p + 1;
        }
        proof {
            lemma_expand_push(Seq::empty(), all, sym);
            lemma_symbols_push(cur, sym);
            assert(done + cur.push(sym) =~= all.push(sym));
            cur = cur.push(sym);
        }
        count = count + 1;
        if count == FRAME_SYMBOLS {
            proof {
                lemma_encode_append(done, cur);
                assert(done + cur + Seq::<Symbol>::empty() =~= done + cur);
            }
            flush_frame(&mut out, &mut frame_bytes, flags);
            proof {
                assert(out@ =~= encode(done) + crate::format::frame(cur));
                done = done + cur;
                cur = Seq::empty();
                assert(frame_bytes@ =~= symbols_bytes(cur));
            }
            flags = 0;
            bit = 1;
            count = 0;
        } else {
            bit = bit * 2;
        }
    }
    if count > 0 {
        proof {
            lemma_encode_append(done, cur);
            lemma_flag_bound(cur);
            lemma_bit_weight_frame((count - 1) as nat);
        }
        flush_frame(&mut out, &mut frame_bytes, flags);
        proof {
            assert(out@ =~= encode(done) + crate::format::frame(cur));
            done = done + cur;
        }
    } else {
        assert(done + cur =~= done);
    }
    assert(input@.take(n as int) =~= input@);
    assert(valid(done) && expand(done) == input@ && out@ == encode(done));
    out
}

} // verus!
