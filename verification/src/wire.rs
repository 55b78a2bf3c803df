//! Fixed-width little-endian integers and UTF-8 text, the two primitive fields
//! that every frame of the protocol is made of.

use crate::error::ProtocolError;
use vstd::prelude::*;
use vstd::slice::{slice_subrange, slice_to_vec};
use vstd::utf8::*;

verus! {

/// `256` to the power `width`: the number of values a field of `width` bytes holds.
pub open spec fn pow256(width: nat) -> nat
    decreases width,
{
    if width == 0 {
        1
    } else {
        256 * pow256((width - 1) as nat)
    }
}

/// The `width` low-order bytes of `value`, least significant first.
pub open spec fn le_bytes(value: nat, width: nat) -> Seq<u8>
    decreases width,
{
    if width == 0 {
        Seq::empty()
    } else {
        seq![(value % 256) as u8] + le_bytes(value / 256, (width - 1) as nat)
    }
}

/// The number that `bytes` spell when read least significant byte first.
pub open spec fn le_value(bytes: Seq<u8>) -> nat
    decreases bytes.len(),
{
    if bytes.len() == 0 {
        0
    } else {
        bytes[0] as nat + 256 * le_value(bytes.drop_first())
    }
}

/// A field of `width` bytes is `width` bytes long.
pub proof fn lemma_le_bytes_len(value: nat, width: nat)
    ensures
        le_bytes(value, width).len() == width,
    decreases width,
{
    if width > 0 {
        lemma_le_bytes_len(value / 256, (width - 1) as nat);
    }
}

/// Bytes always spell a number that fits their width.
pub proof fn lemma_le_value_bound(bytes: Seq<u8>)
    ensures
        le_value(bytes) < pow256(bytes.len()),
    decreases bytes.len(),
{
    if bytes.len() > 0 {
        lemma_le_value_bound(bytes.drop_first());
    }
}

/// Reading back a written field gives the number that was written, provided the
/// number fits the field.
pub proof fn lemma_le_value_of_bytes(value: nat, width: nat)
    requires
        value < pow256(width),
    ensures
        le_value(le_bytes(value, width)) == value,
    decreases width,
{
    if width > 0 {
        let rest = le_bytes(value / 256, (width - 1) as nat);
        let all = le_bytes(value, width);
        assert(all.drop_first() =~= rest);
        assert(value / 256 < pow256((width - 1) as nat)) by (nonlinear_arith)
            requires
                value < 256 * pow256((width - 1) as nat),
        ;
        lemma_le_value_of_bytes(value / 256, (width - 1) as nat);
        assert(value == value % 256 + 256 * (value / 256)) by (nonlinear_arith);
    }
}

/// Writing the number that some bytes spell gives those bytes again.
pub proof fn lemma_le_bytes_of_value(bytes: Seq<u8>)
    ensures
        le_bytes(le_value(bytes), bytes.len()) == bytes,
    decreases bytes.len(),
{
    if bytes.len() > 0 {
        let tail = bytes.drop_first();
        let v = le_value(bytes);
        lemma_le_bytes_of_value(tail);
        assert(v % 256 == bytes[0] as nat && v / 256 == le_value(tail)) by (nonlinear_arith)
            requires
                v == bytes[0] as nat + 256 * le_value(tail),
                bytes[0] < 256,
        ;
        assert(le_bytes(v, bytes.len()) =~= bytes);
    } else {
        assert(le_bytes(le_value(bytes), bytes.len()) =~= bytes);
    }
}

/// Appends `value` to `out` as a field of `width` bytes.
fn put_le(out: &mut Vec<u8>, value: u64, width: usize)
    requires
        width <= 8,
    ensures
        final(out)@ == old(out)@ + le_bytes(value as nat, width as nat),
{
    let mut rest: u64 = value;
    let mut done: usize = 0;
    while done < width
        invariant
            done <= width <= 8,
            out@ + le_bytes(rest as nat, (width - done) as nat) == old(out)@ + le_bytes(
                value as nat,
                width as nat,
            ),
        decreases width - done,
    {
        let ghost before = out@;
        let low: u8 = (rest % 256) as u8;
        out.push(low);
        proof {
            let tail = le_bytes((rest / 256) as nat, (width - done - 1) as nat);
            assert(le_bytes(rest as nat, (width - done) as nat) == seq![low] + tail);
            assert(before.push(low) + tail =~= before + (seq![low] + tail));
        }
        rest = rest / 256;
        done = done + 1;
    }
    assert(out@ + Seq::<u8>::empty() =~= out@);
}

/// Appends `value` to `out` as four bytes, least significant first.
pub fn put_u32(out: &mut Vec<u8>, value: u32)
    ensures
        final(out)@ == old(out)@ + le_bytes(value as nat, 4),
{
    put_le(out, value as u64, 4);
}

/// Appends `value` to `out` as eight bytes, least significant first.
pub fn put_u64(out: &mut Vec<u8>, value: u64)
    ensures
        final(out)@ == old(out)@ + le_bytes(value as nat, 8),
{
    put_le(out, value, 8);
}

/// Reads the field of `width` bytes that starts at `at`.
fn get_le(bytes: &[u8], at: usize, width: usize) -> (value: u64)
    requires
        width <= 8,
        at + width <= bytes@.len(),
    ensures
        value as nat == le_value(bytes@.subrange(at as int, at + width)),
{
    let total: usize = bytes.len();
    let mut acc: u64 = 0;
    let mut left: usize = width;
    proof {
        assert(bytes@.subrange(at + width, at + width) =~= Seq::<u8>::empty());
    }
    while left > 0
        invariant
            left <= width <= 8,
            at + width <= total == bytes@.len(),
            acc as nat == le_value(bytes@.subrange(at + left, at + width)),
        decreases left,
    {
        let ghost high = bytes@.subrange(at + left, at + width);
        left = left - 1;
        let byte: u8 = bytes[at + left];
        proof {
            let field = bytes@.subrange(at + left, at + width);
            assert(field.drop_first() =~= high);
            assert(field[0] == byte);
            lemma_le_value_bound(field);
            lemma_pow256_monotone(field.len(), 8);
            reveal_with_fuel(pow256, 9);
            assert(pow256(8) == 0x1_0000_0000_0000_0000);
        }
        acc = acc * 256 + byte as u64;
    }
    acc
}

/// A wider field holds at least as many values.
pub proof fn lemma_pow256_monotone(narrow: nat, wide: nat)
    requires
        narrow <= wide,
    ensures
        pow256(narrow) <= pow256(wide),
        pow256(narrow) >= 1,
    decreases wide,
{
    if narrow < wide {
        lemma_pow256_monotone(narrow, (wide - 1) as nat);
    } else if wide > 0 {
        lemma_pow256_monotone((narrow - 1) as nat, (wide - 1) as nat);
    }
}

/// The four-byte field at offset `at`, or nothing when fewer than four bytes
/// follow `at`.
pub fn get_u32(bytes: &[u8], at: usize) -> (field: Option<u32>)
    ensures
        at + 4 <= bytes@.len() ==> field == Some(
            le_value(bytes@.subrange(at as int, at + 4)) as u32,
        ),
        at + 4 > bytes@.len() ==> field is None,
{
    if bytes.len() < 4 || at > bytes.len() - 4 {
        return None;
    }
    let value: u64 = get_le(bytes, at, 4);
    proof {
        lemma_le_value_bound(bytes@.subrange(at as int, at + 4));
        reveal_with_fuel(pow256, 5);
    }
    Some(value as u32)
}

/// The eight-byte field at offset `at`, or nothing when fewer than eight bytes
/// follow `at`.
pub fn get_u64(bytes: &[u8], at: usize) -> (field: Option<u64>)
    ensures
        at + 8 <= bytes@.len() ==> field == Some(
            le_value(bytes@.subrange(at as int, at + 8)) as u64,
        ),
        at + 8 > bytes@.len() ==> field is None,
{
    if bytes.len() < 8 || at > bytes.len() - 8 {
        return None;
    }
    Some(get_le(bytes, at, 8))
}

/// `String::from_utf8` of the standard library: the text that `bytes` encode,
/// exactly when they are well-formed UTF-8, and nothing otherwise.
#[verifier::external_body]
pub(crate) fn text_from_utf8(bytes: Vec<u8>) -> (text: Option<String>)
    ensures
        text is Some <==> valid_utf8(bytes@),
        text matches Some(s) ==> s@ == decode_utf8(bytes@),
{
    match String::from_utf8(bytes) {
        Ok(s) => Some(s),
        Err(_) => None,
    }
}

/// Appends a copy of `src` to `out`.
pub fn put_bytes(out: &mut Vec<u8>, src: &[u8])
    ensures
        final(out)@ == old(out)@ + src@,
{
    let total: usize = src.len();
    let mut done: usize = 0;
    while done < total
        invariant
            done <= total == src@.len(),
            out@ == old(out)@ + src@.take(done as int),
        decreases total - done,
    {
        out.push(src[done]);
        done = done + 1;
        assert(src@.take(done as int) =~= src@.take(done - 1).push(src@[done - 1]));
    }
    assert(src@.take(total as int) =~= src@);
}

/// A run of bytes on the wire: its length as an eight-byte field, then the bytes.
pub open spec fn blob_bytes(data: Seq<u8>) -> Seq<u8> {
    le_bytes(data.len(), 8) + data
}

/// A text on the wire: its UTF-8 encoding as a run of bytes.
pub open spec fn text_bytes(text: Seq<char>) -> Seq<u8> {
    blob_bytes(encode_utf8(text))
}

/// What a reader makes of a run of bytes at the start of `bytes`: the run and
/// the number of bytes it occupies.
pub open spec fn parse_blob(bytes: Seq<u8>) -> Result<(Seq<u8>, nat), ProtocolError> {
    if bytes.len() < 8 {
        Err(ProtocolError::Truncated)
    } else {
        let count = le_value(bytes.take(8));
        if bytes.len() < 8 + count {
            Err(ProtocolError::Truncated)
        } else {
            Ok((bytes.subrange(8, 8 + count as int), 8 + count))
        }
    }
}

/// What a reader makes of a text at the start of `bytes`.
pub open spec fn parse_text(bytes: Seq<u8>) -> Result<(Seq<char>, nat), ProtocolError> {
    match parse_blob(bytes) {
        Ok((raw, used)) => if valid_utf8(raw) {
            Ok((decode_utf8(raw), used))
        } else {
            Err(ProtocolError::InvalidText)
        },
        Err(fault) => Err(fault),
    }
}

/// A written run of bytes is read back unchanged, whatever follows it.
pub proof fn lemma_parse_blob_of_bytes(data: Seq<u8>, rest: Seq<u8>)
    requires
        data.len() < pow256(8),
    ensures
        parse_blob(blob_bytes(data) + rest) == Ok::<(Seq<u8>, nat), ProtocolError>(
            (data, blob_bytes(data).len()),
        ),
        blob_bytes(data).len() == 8 + data.len(),
{
    let all = blob_bytes(data) + rest;
    lemma_le_bytes_len(data.len(), 8);
    lemma_le_value_of_bytes(data.len(), 8);
    assert(all.take(8) =~= le_bytes(data.len(), 8));
    assert(all.subrange(8, 8 + data.len() as int) =~= data);
}

/// Whatever is read as a run of bytes is the encoding of that run.
pub proof fn lemma_parse_blob_sound(bytes: Seq<u8>)
    ensures
        parse_blob(bytes) matches Ok((data, used)) ==> used <= bytes.len() && bytes.take(
            used as int,
        ) == blob_bytes(data),
{
    if let Ok((data, used)) = parse_blob(bytes) {
        lemma_le_bytes_of_value(bytes.take(8));
        assert(bytes.take(used as int) =~= bytes.take(8) + data);
    }
}

/// A written text is read back unchanged, whatever follows it.
pub proof fn lemma_parse_text_of_bytes(text: Seq<char>, rest: Seq<u8>)
    requires
        encode_utf8(text).len() < pow256(8),
    ensures
        parse_text(text_bytes(text) + rest) == Ok::<(Seq<char>, nat), ProtocolError>(
            (text, text_bytes(text).len()),
        ),
        text_bytes(text).len() == 8 + encode_utf8(text).len(),
{
    lemma_parse_blob_of_bytes(encode_utf8(text), rest);
    encode_utf8_valid_utf8(text);
    encode_utf8_decode_utf8(text);
}

/// Whatever is read as a text is the encoding of that text.
pub proof fn lemma_parse_text_sound(bytes: Seq<u8>)
    ensures
        parse_text(bytes) matches Ok((text, used)) ==> used <= bytes.len() && bytes.take(
            used as int,
        ) == text_bytes(text),
{
    if let Ok((raw, used)) = parse_blob(bytes) {
        lemma_parse_blob_sound(bytes);
        if valid_utf8(raw) {
            decode_utf8_encode_utf8(raw);
        }
    }
}

/// Appends `data` to `out` as a run of bytes.
pub fn put_blob(out: &mut Vec<u8>, data: &[u8])
    ensures
        final(out)@ == old(out)@ + blob_bytes(data@),
        data@.len() < pow256(8),
{
    let ghost before = out@;
    proof {
        reveal_with_fuel(pow256, 9);
    }
    put_u64(out, data.len() as u64);
    put_bytes(out, data);
    assert(before + le_bytes(data@.len(), 8) + data@ =~= before + blob_bytes(data@));
}

/// Appends `text` to `out` as a text field.
pub fn put_text(out: &mut Vec<u8>, text: &str)
    ensures
        final(out)@ == old(out)@ + text_bytes(text@),
        encode_utf8(text@).len() < pow256(8),
{
    put_blob(out, text.as_bytes());
}

/// Reads the run of bytes that starts at `at`: a copy of the run and the offset
/// just behind it. An offset beyond the end reads as a truncated frame.
pub fn get_blob(bytes: &[u8], at: usize) -> (field: Result<(Vec<u8>, usize), ProtocolError>)
    ensures
        at <= bytes@.len() ==> match parse_blob(bytes@.skip(at as int)) {
            Ok((data, used)) => field matches Ok((got, next)) && got@ == data && next == at + used,
            Err(fault) => field matches Err(got) && got == fault,
        },
        at > bytes@.len() ==> (field matches Err(got) && got == ProtocolError::Truncated),
{
    let total: usize = bytes.len();
    if at > total {
        return Err(ProtocolError::Truncated);
    }
    let ghost tail = bytes@.skip(at as int);
    let count: u64 = match get_u64(bytes, at) {
        Some(count) => count,
        None => {
            return Err(ProtocolError::Truncated);
        },
    };
    proof {
        assert(tail.take(8) =~= bytes@.subrange(at as int, at + 8));
        lemma_le_value_bound(tail.take(8));
        reveal_with_fuel(pow256, 9);
    }
    if count > (total - at - 8) as u64 {
        return Err(ProtocolError::Truncated);
    }
    let start: usize = at + 8;
    let end: usize = start + count as usize;
    let data = slice_to_vec(slice_subrange(bytes, start, end));
    proof {
        assert(tail.subrange(8, 8 + count) =~= bytes@.subrange(start as int, end as int));
    }
    Ok((data, end))
}

/// Reads the text field that starts at `at`: the text and the offset just
/// behind it. An offset beyond the end reads as a truncated frame.
pub fn get_text(bytes: &[u8], at: usize) -> (field: Result<(String, usize), ProtocolError>)
    ensures
        at <= bytes@.len() ==> match parse_text(bytes@.skip(at as int)) {
            Ok((text, used)) => field matches Ok((got, next)) && got@ == text && next == at + used,
            Err(fault) => field matches Err(got) && got == fault,
        },
        at > bytes@.len() ==> (field matches Err(got) && got == ProtocolError::Truncated),
{
    match get_blob(bytes, at) {
        Ok((raw, next)) => match text_from_utf8(raw) {
            Some(text) => Ok((text, next)),
            None => Err(ProtocolError::InvalidText),
        },
        Err(fault) => Err(fault),
    }
}

/// How many more bytes are to be asked for before the run of bytes that begins
/// at the start of `bytes` is there to its end: what is missing of its length
/// field while that is not whole, then what is missing of the run. None when
/// the run is all there.
pub open spec fn blob_shortfall(bytes: Seq<u8>) -> nat {
    if bytes.len() < 8 {
        (8 - bytes.len()) as nat
    } else {
        let whole = 8 + le_value(bytes.take(8));
        if bytes.len() < whole {
            (whole - bytes.len()) as nat
        } else {
            0
        }
    }
}

/// A number of bytes as a length in memory, if it is one.
pub open spec fn bounded(count: nat) -> Option<usize> {
    if count <= usize::MAX {
        Some(count as usize)
    } else {
        None
    }
}

/// More is asked for exactly while the run is cut short: once nothing is, the
/// run can be read, and a text is either read or known to be malformed.
pub proof fn lemma_blob_shortfall(bytes: Seq<u8>)
    ensures
        blob_shortfall(bytes) == 0 <==> parse_blob(bytes) is Ok,
        blob_shortfall(bytes) > 0 <==> parse_blob(bytes) == Err::<(Seq<u8>, nat), ProtocolError>(
            ProtocolError::Truncated,
        ),
        blob_shortfall(bytes) > 0 <==> parse_text(bytes) == Err::<(Seq<char>, nat), ProtocolError>(
            ProtocolError::Truncated,
        ),
{
}

/// What is asked for never reaches beyond the run: to a cut run, no more is
/// missing than the rest of it.
pub proof fn lemma_blob_shortfall_within(data: Seq<u8>, cut: int)
    requires
        data.len() < pow256(8),
        0 <= cut < blob_bytes(data).len(),
    ensures
        0 < blob_shortfall(blob_bytes(data).take(cut)) <= blob_bytes(data).len() - cut,
{
    let whole = blob_bytes(data);
    lemma_le_bytes_len(data.len(), 8);
    if cut >= 8 {
        lemma_le_value_of_bytes(data.len(), 8);
        assert(whole.take(cut).take(8) =~= le_bytes(data.len(), 8));
    }
}

/// Looks at the run of bytes that begins at `at`: the offset just behind it
/// if it is all there, else how many bytes are to be asked for next, if that
/// many can be held at all.
pub(crate) fn blob_span(bytes: &[u8], at: usize) -> (span: Result<usize, Option<usize>>)
    requires
        at <= bytes@.len(),
    ensures
        match parse_blob(bytes@.skip(at as int)) {
            Ok((_, used)) => span == Ok::<usize, Option<usize>>((at + used) as usize) && at
                + used <= bytes@.len(),
            Err(_) => span == Err::<usize, Option<usize>>(
                bounded(blob_shortfall(bytes@.skip(at as int))),
            ),
        },
{
    let total: usize = bytes.len();
    let ghost tail = bytes@.skip(at as int);
    let held: usize = total - at;
    if held < 8 {
        return Err(Some(8 - held));
    }
    let count: u64 = match get_u64(bytes, at) {
        Some(count) => count,
        None => {
            return Err(None);
        },
    };
    proof {
        assert(tail.take(8) =~= bytes@.subrange(at as int, at + 8));
        lemma_le_value_bound(tail.take(8));
        reveal_with_fuel(pow256, 9);
    }
    let behind: u64 = (held - 8) as u64;
    if count <= behind {
        Ok(at + 8 + count as usize)
    } else {
        let missing: u64 = count - behind;
        if missing > usize::MAX as u64 {
            Err(None)
        } else {
            Err(Some(missing as usize))
        }
    }
}

} // verus!
