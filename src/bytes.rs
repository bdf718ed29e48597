//! Little-endian fields over an in-memory byte buffer.
use vstd::prelude::*;
use byteorder::{ByteOrder, LittleEndian};
use crate::error::LevelError;

verus! {

/// The value of four bytes read least significant first.
pub open spec fn le_u32(s: Seq<u8>) -> u32 {
    (s[0] as u32) | ((s[1] as u32) << 8u32) | ((s[2] as u32) << 16u32) | ((s[3] as u32) << 24u32)
}

/// The value of eight bytes read least significant first.
pub open spec fn le_u64(s: Seq<u8>) -> u64 {
    (s[0] as u64) | ((s[1] as u64) << 8u64) | ((s[2] as u64) << 16u64) | ((s[3] as u64) << 24u64)
        | ((s[4] as u64) << 32u64) | ((s[5] as u64) << 40u64) | ((s[6] as u64) << 48u64)
        | ((s[7] as u64) << 56u64)
}

/// The four bytes of `n`, least significant first.
pub open spec fn u32_le(n: u32) -> Seq<u8> {
    seq![n as u8, (n >> 8u32) as u8, (n >> 16u32) as u8, (n >> 24u32) as u8]
}

/// The eight bytes of `n`, least significant first.
pub open spec fn u64_le(n: u64) -> Seq<u8> {
    seq![
        n as u8, (n >> 8u64) as u8, (n >> 16u64) as u8, (n >> 24u64) as u8,
        (n >> 32u64) as u8, (n >> 40u64) as u8, (n >> 48u64) as u8, (n >> 56u64) as u8,
    ]
}

/// Reading back the four bytes of `n` gives `n`.
pub proof fn lemma_u32_le_round_trip(n: u32)
    ensures
        le_u32(u32_le(n)) == n,
{
    let s = u32_le(n);
    let b0 = n as u8;
    let b1 = (n >> 8u32) as u8;
    let b2 = (n >> 16u32) as u8;
    let b3 = (n >> 24u32) as u8;
    assert(s[0] == b0 && s[1] == b1 && s[2] == b2 && s[3] == b3);
    assert((b0 as u32) | ((b1 as u32) << 8u32) | ((b2 as u32) << 16u32) | ((b3 as u32) << 24u32) == n)
        by (bit_vector)
        requires
            b0 == n as u8,
            b1 == (n >> 8u32) as u8,
            b2 == (n >> 16u32) as u8,
            b3 == (n >> 24u32) as u8,
    ;
}

/// Reading back the eight bytes of `n` gives `n`.
pub proof fn lemma_u64_le_round_trip(n: u64)
    ensures
        le_u64(u64_le(n)) == n,
{
    let s = u64_le(n);
    let b0 = n as u8;
    let b1 = (n >> 8u64) as u8;
    let b2 = (n >> 16u64) as u8;
    let b3 = (n >> 24u64) as u8;
    let b4 = (n >> 32u64) as u8;
    let b5 = (n >> 40u64) as u8;
    let b6 = (n >> 48u64) as u8;
    let b7 = (n >> 56u64) as u8;
    assert(s[0] == b0 && s[1] == b1 && s[2] == b2 && s[3] == b3);
    assert(s[4] == b4 && s[5] == b5 && s[6] == b6 && s[7] == b7);
    assert((b0 as u64) | ((b1 as u64) << 8u64) | ((b2 as u64) << 16u64) | ((b3 as u64) << 24u64)
        | ((b4 as u64) << 32u64) | ((b5 as u64) << 40u64) | ((b6 as u64) << 48u64)
        | ((b7 as u64) << 56u64) == n) by (bit_vector)
        requires
            b0 == n as u8,
            b1 == (n >> 8u64) as u8,
            b2 == (n >> 16u64) as u8,
            b3 == (n >> 24u64) as u8,
            b4 == (n >> 32u64) as u8,
            b5 == (n >> 40u64) as u8,
            b6 == (n >> 48u64) as u8,
            b7 == (n >> 56u64) as u8,
    ;
}

/// Relies on byteorder's `LittleEndian::read_u32`: the four bytes at `pos`,
/// least significant first.
#[verifier::external_body]
fn read_u32_le(b: &[u8], pos: usize) -> (r: u32)
    requires
        pos + 4 <= b@.len(),
    ensures
        r == le_u32(b@.subrange(pos as int, pos + 4)),
{
    LittleEndian::read_u32(&b[pos..pos + 4])
}

/// Relies on byteorder's `LittleEndian::read_u64`: the eight bytes at `pos`,
/// least significant first.
#[verifier::external_body]
fn read_u64_le(b: &[u8], pos: usize) -> (r: u64)
    requires
        pos + 8 <= b@.len(),
    ensures
        r == le_u64(b@.subrange(pos as int, pos + 8)),
{
    LittleEndian::read_u64(&b[pos..pos + 8])
}

/// Relies on byteorder's `LittleEndian::write_u32`: the four bytes of `n`,
/// least significant first.
#[verifier::external_body]
fn write_u32_le(n: u32) -> (r: Vec<u8>)
    ensures
        r@ == u32_le(n),
{
    let mut b = [0u8; 4];
    LittleEndian::write_u32(&mut b, n);
    b.to_vec()
}

/// Relies on byteorder's `LittleEndian::write_u64`: the eight bytes of `n`,
/// least significant first.
#[verifier::external_body]
fn write_u64_le(n: u64) -> (r: Vec<u8>)
    ensures
        r@ == u64_le(n),
{
    let mut b = [0u8; 8];
    LittleEndian::write_u64(&mut b, n);
    b.to_vec()
}

/// A 32-bit field at `pos`, and the position after it.
pub open spec fn take_u32(b: Seq<u8>, pos: int) -> Result<(u32, int), LevelError> {
    if 0 <= pos && pos + 4 <= b.len() {
        Ok((le_u32(b.subrange(pos, pos + 4)), pos + 4))
    } else {
        Err(LevelError::UnexpectedEof)
    }
}

/// A signed 32-bit field at `pos`, and the position after it.
pub open spec fn take_i32(b: Seq<u8>, pos: int) -> Result<(i32, int), LevelError> {
    match take_u32(b, pos) {
        Ok((v, p)) => Ok((v as i32, p)),
        Err(e) => Err(e),
    }
}

/// A 64-bit field at `pos`, and the position after it.
pub open spec fn take_u64(b: Seq<u8>, pos: int) -> Result<(u64, int), LevelError> {
    if 0 <= pos && pos + 8 <= b.len() {
        Ok((le_u64(b.subrange(pos, pos + 8)), pos + 8))
    } else {
        Err(LevelError::UnexpectedEof)
    }
}

/// The bytes of a text field that come before its first zero byte (all of
/// them where it holds none).
pub open spec fn text_in(field: Seq<u8>) -> Seq<u8>
    decreases field.len(),
{
    if field.len() == 0 {
        field
    } else if field[0] == 0 {
        Seq::empty()
    } else {
        seq![field[0]] + text_in(field.subrange(1, field.len() as int))
    }
}

/// A text field `width` bytes wide at `pos`, and the position after it.
pub open spec fn take_text(b: Seq<u8>, pos: int, width: int) -> Result<(Seq<u8>, int), LevelError> {
    if 0 <= pos && pos + width <= b.len() {
        Ok((text_in(b.subrange(pos, pos + width)), pos + width))
    } else {
        Err(LevelError::UnexpectedEof)
    }
}

/// The field of `width` bytes that holds `t`: `t`, then zero bytes.
pub open spec fn text_field(t: Seq<u8>, width: int) -> Seq<u8> {
    t + Seq::new((width - t.len()) as nat, |i: int| 0u8)
}

/// An exec result agrees with a spec result: same value, same position.
pub open spec fn agrees<T>(r: Result<(T, usize), LevelError>, s: Result<(T, int), LevelError>) -> bool {
    match r {
        Ok((v, p)) => s == Ok::<(T, int), LevelError>((v, p as int)),
        Err(e) => s == Err::<(T, int), LevelError>(e),
    }
}

/// Reads a 32-bit field at `pos`.
pub fn get_u32(b: &[u8], pos: usize) -> (r: Result<(u32, usize), LevelError>)
    ensures
        agrees(r, take_u32(b@, pos as int)),
{
    if pos <= b.len() && 4 <= b.len() - pos {
        Ok((read_u32_le(b, pos), pos + 4))
    } else {
        Err(LevelError::UnexpectedEof)
    }
}

/// Reads a signed 32-bit field at `pos`.
pub fn get_i32(b: &[u8], pos: usize) -> (r: Result<(i32, usize), LevelError>)
    ensures
        agrees(r, take_i32(b@, pos as int)),
{
    match get_u32(b, pos) {
        Ok((v, p)) => Ok((v as i32, p)),
        Err(e) => Err(e),
    }
}

/// Reads a 64-bit field at `pos`.
pub fn get_u64(b: &[u8], pos: usize) -> (r: Result<(u64, usize), LevelError>)
    ensures
        agrees(r, take_u64(b@, pos as int)),
{
    if pos <= b.len() && 8 <= b.len() - pos {
        Ok((read_u64_le(b, pos), pos + 8))
    } else {
        Err(LevelError::UnexpectedEof)
    }
}

/// Reads a text field `width` bytes wide at `pos`: the bytes before its first
/// zero byte.
pub fn get_text(b: &[u8], pos: usize, width: usize) -> (r: Result<(Vec<u8>, usize), LevelError>)
    ensures
        match r {
            Ok((t, p)) => take_text(b@, pos as int, width as int) == Ok::<(Seq<u8>, int), LevelError>((t@, p as int)),
            Err(e) => take_text(b@, pos as int, width as int) == Err::<(Seq<u8>, int), LevelError>(e),
        },
{
    if !(pos <= b.len() && width <= b.len() - pos) {
        return Err(LevelError::UnexpectedEof);
    }
    let ghost field = b@.subrange(pos as int, pos + width);
    let mut t: Vec<u8> = Vec::new();
    let end: usize = pos + width;
    let mut i: usize = 0;
    while i < width && b[pos + i] != 0
        invariant
            end == pos + width,
            pos + width <= b@.len(),
            field == b@.subrange(pos as int, pos + width),
            i <= width,
            forall|j: int| 0 <= j < i ==> field[j] != 0,
            t@ == field.subrange(0, i as int),
        decreases width - i,
    {
        t.push(b[pos + i]);
        i = i + 1;
        assert(t@ =~= field.subrange(0, i as int));
    }
    proof {
        lemma_text_in_prefix(field, i as int);
    }
    Ok((t, pos + width))
}

/// Where the first `i` bytes of a field are nonzero and the next is zero (or
/// the field ends), the text is those `i` bytes.
pub proof fn lemma_text_in_prefix(field: Seq<u8>, i: int)
    requires
        0 <= i <= field.len(),
        forall|j: int| 0 <= j < i ==> field[j] != 0,
        i == field.len() || field[i] == 0,
    ensures
        text_in(field) == field.subrange(0, i),
    decreases field.len(),
{
    if field.len() == 0 {
        assert(field.subrange(0, i) =~= field);
    } else if i == 0 {
        assert(field.subrange(0, 0) =~= Seq::<u8>::empty());
    } else {
        let rest = field.subrange(1, field.len() as int);
        lemma_text_in_prefix(rest, i - 1);
        assert(seq![field[0]] + rest.subrange(0, i - 1) =~= field.subrange(0, i));
    }
}

/// Appends the four bytes of `n`.
pub fn put_u32(out: &mut Vec<u8>, n: u32)
    ensures
        final(out)@ == old(out)@ + u32_le(n),
{
    let mut b = write_u32_le(n);
    out.append(&mut b);
}

/// Appends the four bytes of a signed `n`.
pub fn put_i32(out: &mut Vec<u8>, n: i32)
    ensures
        final(out)@ == old(out)@ + u32_le(n as u32),
{
    put_u32(out, n as u32);
}

/// Appends the eight bytes of `n`.
pub fn put_u64(out: &mut Vec<u8>, n: u64)
    ensures
        final(out)@ == old(out)@ + u64_le(n),
{
    let mut b = write_u64_le(n);
    out.append(&mut b);
}

/// Appends `t` padded with zero bytes to `width` bytes.
pub fn put_text(out: &mut Vec<u8>, t: &[u8], width: usize)
    requires
        t@.len() <= width,
    ensures
        final(out)@ == old(out)@ + text_field(t@, width as int),
{
    let ghost start = old(out)@;
    let mut i: usize = 0;
    while i < t.len()
        invariant
            i <= t@.len(),
            out@ == start + t@.subrange(0, i as int),
        decreases t@.len() - i,
    {
        out.push(t[i]);
        i = i + 1;
        assert(out@ =~= start + t@.subrange(0, i as int));
    }
    let mut k: usize = t.len();
    while k < width
        invariant
            t@.len() <= k <= width,
            out@ == start + t@ + Seq::new((k - t@.len()) as nat, |j: int| 0u8),
        decreases width - k,
    {
        out.push(0u8);
        k = k + 1;
        assert(out@ =~= start + t@ + Seq::new((k - t@.len()) as nat, |j: int| 0u8));
    }
    assert(t@.subrange(0, t@.len() as int) =~= t@);
}

} // verus!
