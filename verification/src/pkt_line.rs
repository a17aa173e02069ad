//! Pkt-line framing.
//!
//! A pkt-line is a length prefix of four hexadecimal digits followed by the
//! payload; the length counts the prefix itself. The prefix `0000` alone is
//! the flush marker that ends a section. This module only frames bytes: it
//! knows nothing of what the lines mean.

use crate::buffer::{bytes_mut_view, bytes_to_vec, bytes_view, max_buffer_len};
use bytes::Bytes;
use bytes::BytesMut;
use vstd::prelude::*;
use vstd::utf8::encode_utf8;

verus! {

/// Bytes taken by the length prefix.
pub const PREFIX_LEN: usize = 4;

/// Largest total length that four hexadecimal digits can express.
pub const MAX_LINE_LEN: usize = 0xffff;

/// Why a pkt-line could not be read or written.
#[derive(Clone, Copy, Debug, PartialEq, Eq, Structural)]
pub enum PktLineError {
    /// The buffer is not empty but holds fewer than four bytes.
    TruncatedPrefix,
    /// The prefix is not four hexadecimal digits, or gives a length of 1, 2 or 3.
    InvalidLength,
    /// The prefix announces more payload than the buffer holds.
    TruncatedPayload,
    /// The payload is too long for a four-digit length.
    LineTooLong,
    /// The output buffer would outgrow what this crate lets a buffer hold.
    BufferFull,
}

/// The lower-case hexadecimal digit for `d`, `0 <= d < 16`, as an ASCII byte.
pub open spec fn hex_digit(d: int) -> u8 {
    if d < 10 {
        (0x30 + d) as u8
    } else {
        (0x57 + d) as u8
    }
}

/// The value of an ASCII hexadecimal digit of either case.
pub open spec fn hex_value(b: u8) -> Option<int> {
    if 0x30 <= b <= 0x39 {
        Some(b - 0x30)
    } else if 0x61 <= b <= 0x66 {
        Some(b - 0x57)
    } else if 0x41 <= b <= 0x46 {
        Some(b - 0x37)
    } else {
        None
    }
}

/// The four-digit prefix for a total length `n`, `0 <= n <= 0xffff`.
pub open spec fn length_prefix(n: int) -> Seq<u8> {
    seq![
        hex_digit(n / 4096 % 16),
        hex_digit(n / 256 % 16),
        hex_digit(n / 16 % 16),
        hex_digit(n % 16),
    ]
}

/// The length that a four-byte prefix announces, if it is four hexadecimal digits.
pub open spec fn parse_length(prefix: Seq<u8>) -> Option<int> {
    if prefix.len() == 4 && hex_value(prefix[0]) is Some && hex_value(prefix[1]) is Some
        && hex_value(prefix[2]) is Some && hex_value(prefix[3]) is Some {
        Some(
            hex_value(prefix[0])->0 * 4096 + hex_value(prefix[1])->0 * 256 + hex_value(
                prefix[2],
            )->0 * 16 + hex_value(prefix[3])->0,
        )
    } else {
        None
    }
}

/// The flush marker.
pub open spec fn flush_pkt() -> Seq<u8> {
    seq![0x30u8, 0x30u8, 0x30u8, 0x30u8]
}

/// A payload framed as one pkt-line.
pub open spec fn encode_pkt_line(payload: Seq<u8>) -> Seq<u8> {
    length_prefix((payload.len() + 4) as int) + payload
}

/// What reading one pkt-line from the front of a buffer yields.
pub struct PktRead {
    /// Total length announced by the prefix; 0 for a flush or an empty buffer.
    pub length: nat,
    /// The payload, empty for a flush or an empty buffer.
    pub payload: Seq<u8>,
    /// What is left of the buffer after the line.
    pub rest: Seq<u8>,
}

/// Reading one pkt-line from the front of `buf`.
///
/// An empty buffer reads as length 0 with nothing consumed. A flush reads as
/// length 0 with its four bytes consumed and no payload. Any other line has
/// length at least 4 and a payload of `length - 4` bytes.
pub open spec fn decode_pkt_line(buf: Seq<u8>) -> Result<PktRead, PktLineError> {
    if buf.len() == 0 {
        Ok(PktRead { length: 0, payload: Seq::empty(), rest: buf })
    } else if buf.len() < 4 {
        Err(PktLineError::TruncatedPrefix)
    } else {
        match parse_length(buf.subrange(0, 4)) {
            None => Err(PktLineError::InvalidLength),
            Some(n) => if n == 0 {
                Ok(PktRead { length: 0, payload: Seq::empty(), rest: buf.subrange(4, buf.len() as int) })
            } else if n < 4 {
                Err(PktLineError::InvalidLength)
            } else if n > buf.len() {
                Err(PktLineError::TruncatedPayload)
            } else {
                Ok(
                    PktRead {
                        length: n as nat,
                        payload: buf.subrange(4, n),
                        rest: buf.subrange(n, buf.len() as int),
                    },
                )
            },
        }
    }
}

/// The value of one ASCII hexadecimal digit.
pub fn hex_digit_value(b: u8) -> (r: Option<u8>)
    ensures
        r is Some <==> hex_value(b) is Some,
        r matches Some(v) ==> hex_value(b) == Some(v as int) && v < 16,
{
    if 0x30 <= b && b <= 0x39 {
        Some(b - 0x30)
    } else if 0x61 <= b && b <= 0x66 {
        Some(b - 0x57)
    } else if 0x41 <= b && b <= 0x46 {
        Some(b - 0x37)
    } else {
        None
    }
}

/// The length announced by a four-byte prefix.
pub fn parse_length_prefix(prefix: &[u8]) -> (r: Option<usize>)
    ensures
        r is Some <==> parse_length(prefix@) is Some,
        r matches Some(n) ==> parse_length(prefix@) == Some(n as int) && n <= MAX_LINE_LEN,
{
    if prefix.len() != 4 {
        return None;
    }
    let d0 = hex_digit_value(prefix[0]);
    let d1 = hex_digit_value(prefix[1]);
    let d2 = hex_digit_value(prefix[2]);
    let d3 = hex_digit_value(prefix[3]);
    match (d0, d1, d2, d3) {
        (Some(a), Some(b), Some(c), Some(d)) => {
            let a: usize = a as usize;
            let b: usize = b as usize;
            let c: usize = c as usize;
            let d: usize = d as usize;
            Some(a * 4096 + b * 256 + c * 16 + d)
        },
        _ => None,
    }
}

/// The ASCII byte of the lower-case hexadecimal digit `d`.
pub(crate) fn hex_digit_byte(d: u8) -> (b: u8)
    requires
        d < 16,
    ensures
        b == hex_digit(d as int),
        b < 0x80,
{
    if d < 10 {
        0x30 + d
    } else {
        0x57 + d
    }
}

/// Reads one pkt-line from the front of `bytes` and moves the cursor past it.
///
/// Returns the announced length and the payload. On a malformed line the
/// cursor stays where it was.
pub fn read_pkt_line(bytes: &mut Bytes) -> (r: Result<(usize, Bytes), PktLineError>)
    ensures
        match decode_pkt_line(bytes_view(*old(bytes))) {
            Ok(read) => r matches Ok((length, payload)) && length == read.length && bytes_view(
                payload,
            ) == read.payload && bytes_view(*final(bytes)) == read.rest,
            Err(e) => r == Err::<(usize, Bytes), PktLineError>(e) && bytes_view(*final(bytes))
                == bytes_view(*old(bytes)),
        },
{
    let available: usize = bytes.len();
    if available == 0 {
        return Ok((0, Bytes::new()));
    }
    if available < PREFIX_LEN {
        return Err(PktLineError::TruncatedPrefix);
    }
    let mut cursor = bytes.clone();
    let prefix = bytes_to_vec(&cursor.split_to(PREFIX_LEN));
    let length: usize = match parse_length_prefix(prefix.as_slice()) {
        None => {
            return Err(PktLineError::InvalidLength);
        },
        Some(n) => n,
    };
    if length == 0 {
        *bytes = cursor;
        return Ok((0, Bytes::new()));
    }
    if length < PREFIX_LEN {
        return Err(PktLineError::InvalidLength);
    }
    if length > available {
        return Err(PktLineError::TruncatedPayload);
    }
    let payload = cursor.split_to(length - PREFIX_LEN);
    proof {
        let buf = bytes_view(*old(bytes));
        assert(buf.subrange(4, buf.len() as int).subrange(0, length - 4) =~= buf.subrange(
            4,
            length as int,
        ));
        assert(buf.subrange(4, buf.len() as int).subrange(length - 4, buf.len() - 4)
            =~= buf.subrange(length as int, buf.len() as int));
    }
    *bytes = cursor;
    Ok((length, payload))
}

/// Appends `payload` to `stream` as one pkt-line.
///
/// Fails, leaving `stream` as it was, when the payload does not fit a
/// four-digit length or the buffer cannot grow by the line.
pub fn add_pkt_line(stream: &mut BytesMut, payload: &[u8]) -> (r: Result<(), PktLineError>)
    ensures
        r == spec_add_pkt_line(bytes_mut_view(*old(stream)), payload@),
        r is Ok ==> bytes_mut_view(*final(stream)) == bytes_mut_view(*old(stream))
            + encode_pkt_line(payload@),
        r is Err ==> bytes_mut_view(*final(stream)) == bytes_mut_view(*old(stream)),
{
    if payload.len() > MAX_LINE_LEN - PREFIX_LEN {
        return Err(PktLineError::LineTooLong);
    }
    let total: usize = payload.len() + PREFIX_LEN;
    if stream.len() > (isize::MAX as usize) / 2 - total {
        return Err(PktLineError::BufferFull);
    }
    let mut prefix: Vec<u8> = Vec::new();
    prefix.push(hex_digit_byte((total / 4096 % 16) as u8));
    prefix.push(hex_digit_byte((total / 256 % 16) as u8));
    prefix.push(hex_digit_byte((total / 16 % 16) as u8));
    prefix.push(hex_digit_byte((total % 16) as u8));
    assert(prefix@ =~= length_prefix(total as int));
    stream.extend_from_slice(prefix.as_slice());
    stream.extend_from_slice(payload);
    assert(bytes_mut_view(*stream) =~= bytes_mut_view(*old(stream)) + encode_pkt_line(payload@));
    Ok(())
}

/// Whether a payload can be appended to a buffer that holds `stream`.
pub open spec fn spec_add_pkt_line(stream: Seq<u8>, payload: Seq<u8>) -> Result<(), PktLineError> {
    if payload.len() + 4 > 0xffff {
        Err(PktLineError::LineTooLong)
    } else if stream.len() + payload.len() + 4 > max_buffer_len() {
        Err(PktLineError::BufferFull)
    } else {
        Ok(())
    }
}

/// Appends `buf_str` to `pkt_line_stream` as one pkt-line.
///
/// The line is framed as it stands: a caller that wants a newline at its end
/// puts it there.
pub fn add_pkt_line_string(pkt_line_stream: &mut BytesMut, buf_str: String) -> (r: Result<
    (),
    PktLineError,
>)
    ensures
        r == spec_add_pkt_line(bytes_mut_view(*old(pkt_line_stream)), encode_utf8(buf_str@)),
        r is Ok ==> bytes_mut_view(*final(pkt_line_stream)) == bytes_mut_view(
            *old(pkt_line_stream),
        ) + encode_pkt_line(encode_utf8(buf_str@)),
        r is Err ==> bytes_mut_view(*final(pkt_line_stream)) == bytes_mut_view(
            *old(pkt_line_stream),
        ),
{
    add_pkt_line(pkt_line_stream, buf_str.as_str().as_bytes())
}

/// Appends the flush marker to `stream`.
pub fn add_flush(stream: &mut BytesMut) -> (r: Result<(), PktLineError>)
    ensures
        r is Ok <==> bytes_mut_view(*old(stream)).len() + 4 <= max_buffer_len(),
        r is Err ==> r == Err::<(), PktLineError>(PktLineError::BufferFull),
        r is Ok ==> bytes_mut_view(*final(stream)) == bytes_mut_view(*old(stream)) + flush_pkt(),
        r is Err ==> bytes_mut_view(*final(stream)) == bytes_mut_view(*old(stream)),
{
    if stream.len() > (isize::MAX as usize) / 2 - PREFIX_LEN {
        return Err(PktLineError::BufferFull);
    }
    let mut marker: Vec<u8> = Vec::new();
    marker.push(0x30u8);
    marker.push(0x30u8);
    marker.push(0x30u8);
    marker.push(0x30u8);
    assert(marker@ =~= flush_pkt());
    stream.extend_from_slice(marker.as_slice());
    Ok(())
}

/// A hexadecimal digit reads back as its value.
proof fn lemma_hex_digit_value(d: int)
    requires
        0 <= d < 16,
    ensures
        hex_value(hex_digit(d)) == Some(d),
{
}

/// A number below 0x10000 is made up of its four hexadecimal digits.
proof fn lemma_four_digits(m: u32)
    requires
        m <= 0xffff,
    ensures
        m == (m / 4096 % 16) * 4096 + (m / 256 % 16) * 256 + (m / 16 % 16) * 16 + m % 16,
{
    assert(m == (m / 4096 % 16) * 4096 + (m / 256 % 16) * 256 + (m / 16 % 16) * 16 + m % 16)
        by (bit_vector)
        requires
            m <= 0xffff,
    ;
}

/// A length prefix reads back as the length it was written for.
pub proof fn lemma_length_prefix_parses(n: int)
    requires
        0 <= n <= 0xffff,
    ensures
        length_prefix(n).len() == 4,
        parse_length(length_prefix(n)) == Some(n),
{
    let m = n as u32;
    lemma_four_digits(m);
    let d0 = (m / 4096 % 16) as int;
    let d1 = (m / 256 % 16) as int;
    let d2 = (m / 16 % 16) as int;
    let d3 = (m % 16) as int;
    assert(d0 == n / 4096 % 16);
    assert(d1 == n / 256 % 16);
    assert(d2 == n / 16 % 16);
    assert(d3 == n % 16);
    lemma_hex_digit_value(d0);
    lemma_hex_digit_value(d1);
    lemma_hex_digit_value(d2);
    lemma_hex_digit_value(d3);
    let prefix = length_prefix(n);
    assert(prefix[0] == hex_digit(d0));
    assert(prefix[1] == hex_digit(d1));
    assert(prefix[2] == hex_digit(d2));
    assert(prefix[3] == hex_digit(d3));
}

/// Round trip: a payload that was framed and put in front of any bytes reads
/// back as itself, with its full length announced and those bytes left over.
/// This holds for the empty payload as for any other that fits.
pub proof fn lemma_pkt_line_round_trip(payload: Seq<u8>, rest: Seq<u8>)
    requires
        payload.len() + 4 <= 0xffff,
    ensures
        decode_pkt_line(encode_pkt_line(payload) + rest) == Ok::<PktRead, PktLineError>(
            PktRead { length: payload.len() + 4, payload, rest },
        ),
{
    let n = (payload.len() + 4) as int;
    let buf = encode_pkt_line(payload) + rest;
    lemma_length_prefix_parses(n);
    assert(buf.subrange(0, 4) =~= length_prefix(n));
    assert(buf.subrange(4, n) =~= payload);
    assert(buf.subrange(n, buf.len() as int) =~= rest);
}

/// A flush marker in front of any bytes reads as length 0 with no payload,
/// and only the marker is consumed.
pub proof fn lemma_flush_reads_as_flush(rest: Seq<u8>)
    ensures
        decode_pkt_line(flush_pkt() + rest) == Ok::<PktRead, PktLineError>(
            PktRead { length: 0, payload: Seq::empty(), rest },
        ),
{
    let buf = flush_pkt() + rest;
    assert(buf.subrange(0, 4) =~= flush_pkt());
    assert(buf.subrange(4, buf.len() as int) =~= rest);
}

} // verus!
