//! Little-endian encoding of the protocol's primitive values, and their parsing from the
//! front of a byte sequence.

use super::CommsError;
use vstd::prelude::*;
use vstd::utf8::{decode_utf8, encode_utf8, valid_utf8};

verus! {

broadcast use {vstd::utf8::encode_utf8_valid_utf8, vstd::utf8::encode_utf8_decode_utf8};

/// The encoding of a byte: the byte itself.
pub open spec fn enc_u8(v: u8) -> Seq<u8> {
    seq![v]
}

/// The little-endian encoding of a `u16`.
pub open spec fn enc_u16(v: u16) -> Seq<u8> {
    seq![(v & 0xff) as u8, (v >> 8u16) as u8]
}

/// The encoding of an `i16`: that of its two's complement bits.
pub open spec fn enc_i16(v: i16) -> Seq<u8> {
    enc_u16(v as u16)
}

/// The little-endian encoding of a `u32`.
pub open spec fn enc_u32(v: u32) -> Seq<u8> {
    seq![(v & 0xff) as u8, ((v >> 8u32) & 0xff) as u8, ((v >> 16u32) & 0xff) as u8, (v >> 24u32) as u8]
}

/// The encoding of a string: its UTF-8 length as a `u16`, then its UTF-8 bytes.
pub open spec fn enc_str(s: Seq<char>) -> Seq<u8> {
    enc_u16(encode_utf8(s).len() as u16) + encode_utf8(s)
}

/// A string fits the encoding when its UTF-8 length is below `u16::MAX`.
pub open spec fn str_fits(s: Seq<char>) -> bool {
    encode_utf8(s).len() < 65535
}

/// The `u16` of two little-endian bytes.
pub open spec fn dec_u16(b0: u8, b1: u8) -> u16 {
    ((b0 as u16) | ((b1 as u16) << 8u16)) as u16
}

/// The `u32` of four little-endian bytes.
pub open spec fn dec_u32(b0: u8, b1: u8, b2: u8, b3: u8) -> u32 {
    ((b0 as u32) | ((b1 as u32) << 8u32) | ((b2 as u32) << 16u32) | ((b3 as u32) << 24u32)) as u32
}

/// A byte from the front of `s`, and what follows it.
pub open spec fn parse_u8(s: Seq<u8>) -> Result<(u8, Seq<u8>), CommsError> {
    if s.len() >= 1 {
        Ok((s[0], s.skip(1)))
    } else {
        Err(CommsError::Disconnected)
    }
}

/// A `u16` from the front of `s`, and what follows it.
pub open spec fn parse_u16(s: Seq<u8>) -> Result<(u16, Seq<u8>), CommsError> {
    if s.len() >= 2 {
        Ok((dec_u16(s[0], s[1]), s.skip(2)))
    } else {
        Err(CommsError::Disconnected)
    }
}

/// An `i16` from the front of `s`, and what follows it.
pub open spec fn parse_i16(s: Seq<u8>) -> Result<(i16, Seq<u8>), CommsError> {
    if s.len() >= 2 {
        Ok((dec_u16(s[0], s[1]) as i16, s.skip(2)))
    } else {
        Err(CommsError::Disconnected)
    }
}

/// A `u32` from the front of `s`, and what follows it.
pub open spec fn parse_u32(s: Seq<u8>) -> Result<(u32, Seq<u8>), CommsError> {
    if s.len() >= 4 {
        Ok((dec_u32(s[0], s[1], s[2], s[3]), s.skip(4)))
    } else {
        Err(CommsError::Disconnected)
    }
}

/// A string from the front of `s`, and what follows it.
pub open spec fn parse_str(s: Seq<u8>) -> Result<(Seq<char>, Seq<u8>), CommsError> {
    if s.len() >= 2 && s.len() - 2 >= dec_u16(s[0], s[1]) {
        let n = dec_u16(s[0], s[1]) as int;
        Ok((decode_utf8(s.subrange(2, 2 + n)), s.skip(2 + n)))
    } else {
        Err(CommsError::Disconnected)
    }
}

/// A string at the front of `s`, when all its bytes are there, is valid UTF-8.
pub open spec fn str_valid(s: Seq<u8>) -> bool {
    s.len() >= 2 && s.len() - 2 >= dec_u16(s[0], s[1]) ==> valid_utf8(
        s.subrange(2, 2 + dec_u16(s[0], s[1]) as int),
    )
}

/// Whether an exec read from position `pos` of `b`, returning a value and a new position,
/// agrees with the parse of the bytes from `pos`.
pub open spec fn read_agrees<T>(
    r: Result<(T, usize), CommsError>,
    b: Seq<u8>,
    parsed: Result<(T, Seq<u8>), CommsError>,
) -> bool {
    match r {
        Ok((v, p)) => p <= b.len() && parsed == Ok::<(T, Seq<u8>), CommsError>((v, b.skip(p as int))),
        Err(e) => parsed == Err::<(T, Seq<u8>), CommsError>(e),
    }
}

/// The encodings of the integers read back as what was encoded.
pub proof fn lemma_int_codec(a: u16, b: u32)
    ensures
        dec_u16(enc_u16(a)[0], enc_u16(a)[1]) == a,
        dec_u32(enc_u32(b)[0], enc_u32(b)[1], enc_u32(b)[2], enc_u32(b)[3]) == b,
{
    assert(dec_u16((a & 0xff) as u8, (a >> 8u16) as u8) == a) by (bit_vector);
    assert(dec_u32(
        (b & 0xff) as u8,
        ((b >> 8u32) & 0xff) as u8,
        ((b >> 16u32) & 0xff) as u8,
        (b >> 24u32) as u8,
    ) == b) by (bit_vector);
}

/// An `i16` read back from the encoding of its bits is itself.
pub proof fn lemma_i16_codec(a: i16)
    ensures
        dec_u16(enc_i16(a)[0], enc_i16(a)[1]) as i16 == a,
{
    lemma_int_codec(a as u16, 0);
    assert(((a as u16) as i16) == a) by (bit_vector);
}

/// Each primitive parses back from its encoding, whatever follows it.
pub proof fn lemma_parse_enc(rest: Seq<u8>, a: u8, b: u16, c: i16, d: u32)
    ensures
        parse_u8(enc_u8(a) + rest) == Ok::<(u8, Seq<u8>), CommsError>((a, rest)),
        parse_u16(enc_u16(b) + rest) == Ok::<(u16, Seq<u8>), CommsError>((b, rest)),
        parse_i16(enc_i16(c) + rest) == Ok::<(i16, Seq<u8>), CommsError>((c, rest)),
        parse_u32(enc_u32(d) + rest) == Ok::<(u32, Seq<u8>), CommsError>((d, rest)),
{
    lemma_int_codec(b, d);
    lemma_i16_codec(c);
    assert((enc_u8(a) + rest).skip(1) =~= rest);
    assert((enc_u16(b) + rest).skip(2) =~= rest);
    assert((enc_i16(c) + rest).skip(2) =~= rest);
    assert((enc_u32(d) + rest).skip(4) =~= rest);
}

/// A string that fits parses back from its encoding, whatever follows it, and its
/// encoding is valid.
pub proof fn lemma_parse_enc_str(s: Seq<char>, rest: Seq<u8>)
    requires
        str_fits(s),
    ensures
        parse_str(enc_str(s) + rest) == Ok::<(Seq<char>, Seq<u8>), CommsError>((s, rest)),
        str_valid(enc_str(s) + rest),
{
    let u = encode_utf8(s);
    let n = u.len() as u16;
    lemma_int_codec(n, 0);
    let t = enc_str(s) + rest;
    assert(t[0] == enc_u16(n)[0] && t[1] == enc_u16(n)[1]);
    assert(t.subrange(2, 2 + n as int) =~= u);
    assert(t.skip(2 + n as int) =~= rest);
}

/// Append the encoding of a byte.
pub fn write_u8(buf: &mut Vec<u8>, v: u8)
    ensures
        final(buf)@ == old(buf)@ + enc_u8(v),
{
    buf.push(v);
    proof {
        assert(final(buf)@ =~= old(buf)@ + enc_u8(v));
    }
}

/// Append the little-endian encoding of a `u16`.
pub fn write_u16(buf: &mut Vec<u8>, v: u16)
    ensures
        final(buf)@ == old(buf)@ + enc_u16(v),
{
    buf.push((v & 0xff) as u8);
    buf.push((v >> 8) as u8);
    proof {
        assert(final(buf)@ =~= old(buf)@ + enc_u16(v));
    }
}

/// Append the encoding of an `i16`.
pub fn write_i16(buf: &mut Vec<u8>, v: i16)
    ensures
        final(buf)@ == old(buf)@ + enc_i16(v),
{
    write_u16(buf, v as u16);
}

/// Append the little-endian encoding of a `u32`.
pub fn write_u32(buf: &mut Vec<u8>, v: u32)
    ensures
        final(buf)@ == old(buf)@ + enc_u32(v),
{
    buf.push((v & 0xff) as u8);
    buf.push(((v >> 8) & 0xff) as u8);
    buf.push(((v >> 16) & 0xff) as u8);
    buf.push((v >> 24) as u8);
    proof {
        assert(final(buf)@ =~= old(buf)@ + enc_u32(v));
    }
}

/// Append raw bytes.
pub fn write_bytes(buf: &mut Vec<u8>, bytes: &[u8])
    ensures
        final(buf)@ == old(buf)@ + bytes@,
{
    let mut i: usize = 0;
    while i < bytes.len()
        invariant
            i <= bytes.len(),
            buf@ == old(buf)@ + bytes@.take(i as int),
        decreases bytes.len() - i,
    {
        buf.push(bytes[i]);
        i = i + 1;
        proof {
            assert(buf@ =~= old(buf)@ + bytes@.take(i as int));
        }
    }
    proof {
        assert(bytes@.take(bytes.len() as int) =~= bytes@);
    }
}

/// Append the encoding of a string: its UTF-8 length, then its UTF-8 bytes.
pub fn write_string(buf: &mut Vec<u8>, s: &String)
    requires
        str_fits(s@),
    ensures
        final(buf)@ == old(buf)@ + enc_str(s@),
{
    let bytes = s.as_str().as_bytes();
    write_u16(buf, bytes.len() as u16);
    write_bytes(buf, bytes);
    proof {
        assert(final(buf)@ =~= old(buf)@ + enc_str(s@));
    }
}

/// Read a byte at `pos`.
pub fn read_u8(b: &[u8], pos: usize) -> (r: Result<(u8, usize), CommsError>)
    requires
        pos <= b.len(),
    ensures
        read_agrees(r, b@, parse_u8(b@.skip(pos as int))),
{
    if b.len() - pos < 1 {
        return Err(CommsError::Disconnected);
    }
    proof {
        assert(b@.skip(pos as int).skip(1) =~= b@.skip(pos + 1));
    }
    Ok((b[pos], pos + 1))
}

/// Read a little-endian `u16` at `pos`.
pub fn read_u16(b: &[u8], pos: usize) -> (r: Result<(u16, usize), CommsError>)
    requires
        pos <= b.len(),
    ensures
        read_agrees(r, b@, parse_u16(b@.skip(pos as int))),
{
    if b.len() - pos < 2 {
        return Err(CommsError::Disconnected);
    }
    let v: u16 = (b[pos] as u16) | ((b[pos + 1] as u16) << 8);
    proof {
        assert(b@.skip(pos as int).skip(2) =~= b@.skip(pos + 2));
    }
    Ok((v, pos + 2))
}

/// Read a little-endian `i16` at `pos`.
pub fn read_i16(b: &[u8], pos: usize) -> (r: Result<(i16, usize), CommsError>)
    requires
        pos <= b.len(),
    ensures
        read_agrees(r, b@, parse_i16(b@.skip(pos as int))),
{
    match read_u16(b, pos) {
        Ok((v, p)) => Ok((v as i16, p)),
        Err(e) => Err(e),
    }
}

/// Read a little-endian `u32` at `pos`.
pub fn read_u32(b: &[u8], pos: usize) -> (r: Result<(u32, usize), CommsError>)
    requires
        pos <= b.len(),
    ensures
        read_agrees(r, b@, parse_u32(b@.skip(pos as int))),
{
    if b.len() - pos < 4 {
        return Err(CommsError::Disconnected);
    }
    let v: u32 = (b[pos] as u32) | ((b[pos + 1] as u32) << 8) | ((b[pos + 2] as u32) << 16) | ((
    b[pos + 3] as u32) << 24);
    proof {
        assert(b@.skip(pos as int).skip(4) =~= b@.skip(pos + 4));
    }
    Ok((v, pos + 4))
}

/// The bytes of `b` from `pos` to `end`, copied.
pub fn copy_bytes(b: &[u8], pos: usize, end: usize) -> (r: Vec<u8>)
    requires
        pos <= end <= b.len(),
    ensures
        r@ == b@.subrange(pos as int, end as int),
{
    let mut r: Vec<u8> = Vec::new();
    let mut i: usize = pos;
    while i < end
        invariant
            pos <= i <= end <= b.len(),
            r@ == b@.subrange(pos as int, i as int),
        decreases end - i,
    {
        r.push(b[i]);
        i = i + 1;
        proof {
            assert(r@ =~= b@.subrange(pos as int, i as int));
        }
    }
    r
}

/// The text of UTF-8 bytes; `None` when they are not valid UTF-8.
#[verifier::external_body]
fn string_from_utf8(bytes: Vec<u8>) -> (r: Option<String>)
    ensures
        r is Some <==> valid_utf8(bytes@),
        r matches Some(s) ==> s@ == decode_utf8(bytes@),
{
    match String::from_utf8(bytes) {
        Ok(s) => Some(s),
        Err(_) => None,
    }
}

/// Read a string at `pos`: a `u16` length and that many UTF-8 bytes.
pub fn read_string(b: &[u8], pos: usize) -> (r: Result<(String, usize), CommsError>)
    requires
        pos <= b.len(),
        str_valid(b@.skip(pos as int)),
    ensures
        match r {
            Ok((s, p)) => p <= b.len() && parse_str(b@.skip(pos as int)) == Ok::<(Seq<char>, Seq<u8>), CommsError>((s@, b@.skip(p as int))),
            Err(e) => parse_str(b@.skip(pos as int)) == Err::<(Seq<char>, Seq<u8>), CommsError>(e),
        },
{
    let (size, p) = match read_u16(b, pos) {
        Ok(x) => x,
        Err(e) => return Err(e),
    };
    proof {
        assert(b@.skip(p as int).len() == b@.skip(pos as int).skip(2).len());
        assert(p == pos + 2);
        assert(size == dec_u16(b@.skip(pos as int)[0], b@.skip(pos as int)[1]));
    }
    if b.len() - p < size as usize {
        return Err(CommsError::Disconnected);
    }
    let end = p + size as usize;
    let bytes = copy_bytes(b, p, end);
    proof {
        assert(bytes@ =~= b@.skip(pos as int).subrange(2, 2 + size as int));
        assert(b@.skip(pos as int).skip(2 + size as int) =~= b@.skip(end as int));
    }
    let s = string_from_utf8(bytes).unwrap();
    Ok((s, end))
}

/// Whether the string at `pos`, when all its bytes are there, is valid UTF-8.
pub fn check_str_valid(b: &[u8], pos: usize) -> (r: bool)
    requires
        pos <= b.len(),
    ensures
        r == str_valid(b@.skip(pos as int)),
{
    let ghost s = b@.skip(pos as int);
    if b.len() - pos < 2 {
        return true;
    }
    let size: usize = ((b[pos] as u16) | ((b[pos + 1] as u16) << 8)) as usize;
    proof {
        assert(s[0] == b[pos as int] && s[1] == b[pos + 1]);
    }
    if b.len() - pos - 2 < size {
        return true;
    }
    let bytes = copy_bytes(b, pos + 2, pos + 2 + size);
    proof {
        assert(bytes@ =~= s.subrange(2, 2 + size as int));
    }
    string_from_utf8(bytes).is_some()
}

} // verus!
