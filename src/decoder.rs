//! Reconstructs the original bytes from a bitstream.
use vstd::prelude::*;
use crate::format::{copy_back, decode, decode_from, DecodeError, FRAME_SYMBOLS, MIN_MATCH};

verus! {

/// Appends `length` bytes to `out`, each copied from `offset + 1` places back,
/// one at a time so that a copy may read what it has just written.
fn copy_back_exec(out: &mut Vec<u8>, offset: usize, length: usize)
    requires
        offset < old(out)@.len(),
        old(out)@.len() + length <= usize::MAX,
    ensures
        final(out)@ == copy_back(old(out)@, offset as nat, length as nat),
        final(out)@.len() == old(out)@.len() + length,
{
    let mut done: usize = 0;
    while done < length
        invariant
            done <= length,
            offset < out@.len(),
            out@.len() == old(out)@.len() + done,
            old(out)@.len() + length <= usize::MAX,
            copy_back(out@, offset as nat, (length - done) as nat) == copy_back(
                old(out)@,
                offset as nat,
                length as nat,
            ),
        decreases length - done,
    {
        let b = out[out.len() - offset - 1];
        out.push(b);
        done = done + 1;
    }
}

/// Decodes `data` into exactly `original_size` bytes.
///
/// Fails where a back-reference points before the start of the output, where
/// the stream stops inside a back-reference, or where the stream describes
/// fewer or more bytes than `original_size`.
pub fn decompress(data: &[u8], original_size: usize) -> (r: Result<Vec<u8>, DecodeError>)
    ensures
        match r {
            Ok(v) => decode(data@, original_size as nat) == Ok::<Seq<u8>, DecodeError>(v@),
            Err(e) => decode(data@, original_size as nat) == Err::<Seq<u8>, DecodeError>(e),
        },
{
    let mut target: Vec<u8> = Vec::with_capacity(original_size);
    let mut src: usize = 0;
    let mut flags: u8 = 0;
    let mut pending: usize = 0;
    assert(data@.subrange(0, data@.len() as int) =~= data@);
    while src < data.len()
        invariant
            src <= data.len(),
            pending <= FRAME_SYMBOLS,
            target@.len() <= original_size,
            decode_from(
                data@.subrange(src as int, data@.len() as int),
                flags as nat,
                pending as nat,
                target@,
                original_size as nat,
            ) == decode(data@, original_size as nat),
        decreases data.len() - src,
    {
        let ghost rest = data@.subrange(src as int, data@.len() as int);
        assert(rest.drop_first() =~= data@.subrange(src + 1, data@.len() as int));
        if target.len() >= original_size {
            return Err(DecodeError::Overrun);
        }
        if pending == 0 {
            flags = data[src];
            pending = FRAME_SYMBOLS;
            src = src + 1;
        } else if flags % 2 == 1 {
            target.push(data[src]);
            flags = flags / 2;
            pending = pending - 1;
            src = src + 1;
        } else {
            if data.len() - src < 2 {
                return Err(DecodeError::Truncated);
            }
            let b0 = data[src];
            let b1 = data[src + 1];
            let offset: usize = (b1 as usize) * 16 + (b0 as usize) / 16;
            let length: usize = (b0 as usize) % 16 + MIN_MATCH;
            if offset >= target.len() {
                return Err(DecodeError::OffsetBeforeStart);
            }
            if length > original_size - target.len() {
                return Err(DecodeError::Overrun);
            }
            assert(rest.subrange(2, rest.len() as int) =~= data@.subrange(
                src + 2,
                data@.len() as int,
            ));
            copy_back_exec(&mut target, offset, length);
            flags = flags / 2;
            pending = pending - 1;
            src = src + 2;
        }
    }
    assert(data@.subrange(src as int, data@.len() as int).len() == 0);
    if target.len() == original_size {
        Ok(target)
    } else {
        Err(DecodeError::Underrun)
    }
}

} // verus!
