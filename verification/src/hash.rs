//! Object ids: SHA-1 digests and their hexadecimal text.

use crate::pkt_line::{hex_digit, hex_digit_byte, hex_digit_value, hex_value};
use crate::text::string_from_utf8;
use sha1::Digest;
use vstd::prelude::*;
use vstd::utf8::*;

verus! {

/// Bytes in a SHA-1 digest.
pub const DIGEST_LEN: usize = 20;

/// Characters in the hexadecimal text of a digest.
pub const HEX_LEN: usize = 40;

/// The SHA-1 digest of `data`.
pub uninterp spec fn spec_sha1(data: Seq<u8>) -> Seq<u8>;

/// `Sha1::digest`: the SHA-1 digest of the data, which has twenty bytes.
#[verifier::external_body]
pub(crate) fn sha1_digest(data: &[u8]) -> (digest: [u8; 20])
    ensures
        digest@ == spec_sha1(data@),
{
    sha1::Sha1::digest(data).into()
}

/// The id of an object: a SHA-1 digest, written as forty hexadecimal digits.
#[derive(Clone, Copy, Debug, PartialEq, Eq, Hash)]
pub struct Hash {
    pub bytes: [u8; 20],
}

impl View for Hash {
    type V = Seq<u8>;

    open spec fn view(&self) -> Seq<u8> {
        self.bytes@
    }
}

/// The two hexadecimal digits of each byte of `bytes`, in order, as ASCII.
pub open spec fn hex_bytes(bytes: Seq<u8>) -> Seq<u8> {
    Seq::new(
        2 * bytes.len(),
        |i: int|
            if i % 2 == 0 {
                hex_digit(bytes[i / 2] as int / 16)
            } else {
                hex_digit(bytes[i / 2] as int % 16)
            },
    )
}

/// The bytes that the hexadecimal digits in `text` spell, two digits to a
/// byte; `None` unless `text` is an even number of hexadecimal digits.
pub open spec fn unhex_bytes(text: Seq<u8>) -> Option<Seq<u8>> {
    if text.len() % 2 == 0 && (forall|i: int| 0 <= i < text.len() ==> hex_value(#[trigger] text[i]) is Some) {
        Some(
            Seq::new(
                text.len() / 2,
                |i: int| (hex_value(text[2 * i])->0 * 16 + hex_value(text[2 * i + 1])->0) as u8,
            ),
        )
    } else {
        None
    }
}

/// The id that `text` spells: twenty bytes, written as forty hexadecimal
/// digits.
pub open spec fn spec_id_from_hex(text: Seq<u8>) -> Option<Seq<u8>> {
    match unhex_bytes(text) {
        Some(bytes) => if bytes.len() == 20 {
            Some(bytes)
        } else {
            None
        },
        None => None,
    }
}

/// ASCII bytes read as text.
pub open spec fn ascii_text(bytes: Seq<u8>) -> Seq<char> {
    Seq::new(bytes.len(), |i: int| bytes[i] as char)
}

/// The hexadecimal text of an object id.
pub open spec fn hex_text(id: Seq<u8>) -> Seq<char> {
    ascii_text(hex_bytes(id))
}

/// The id of which every byte is zero, which stands for "no object".
pub open spec fn zero_id() -> Seq<u8> {
    Seq::new(20, |i: int| 0u8)
}

/// Bytes below 128 are well-formed UTF-8 and decode to themselves.
proof fn lemma_ascii_decodes(bytes: Seq<u8>)
    requires
        forall|i: int| 0 <= i < bytes.len() ==> bytes[i] < 0x80,
    ensures
        valid_utf8(bytes),
        decode_utf8(bytes) == ascii_text(bytes),
        encode_utf8(ascii_text(bytes)) == bytes,
{
    let chars = ascii_text(bytes);
    assert(is_ascii_chars(chars));
    is_ascii_chars_encode_utf8(chars);
    assert(encode_utf8(chars) =~= bytes);
    encode_utf8_valid_utf8(chars);
    encode_utf8_decode_utf8(chars);
}

/// A byte is made up of its two hexadecimal digits, and each digit reads
/// back as its value.
proof fn lemma_byte_digits(b: u8)
    ensures
        hex_value(hex_digit(b as int / 16)) == Some(b as int / 16),
        hex_value(hex_digit(b as int % 16)) == Some(b as int % 16),
        (b as int / 16) * 16 + b as int % 16 == b,
{
    assert(b / 16 < 16 && b % 16 < 16 && (b / 16) * 16 + b % 16 == b) by (bit_vector);
}

/// The hexadecimal digits of an id spell the id: writing an id and reading
/// it back gives the id.
pub proof fn lemma_hex_round_trip(id: Seq<u8>)
    ensures
        unhex_bytes(hex_bytes(id)) == Some(id),
        id.len() == 20 ==> spec_id_from_hex(hex_bytes(id)) == Some(id),
{
    let text = hex_bytes(id);
    assert forall|i: int| 0 <= i < text.len() implies hex_value(#[trigger] text[i]) is Some by {
        lemma_byte_digits(id[i / 2]);
    }
    let back = unhex_bytes(text)->0;
    assert forall|i: int| 0 <= i < id.len() implies back[i] == id[i] by {
        lemma_byte_digits(id[i]);
        assert(text[2 * i] == hex_digit(id[i] as int / 16));
        assert(text[2 * i + 1] == hex_digit(id[i] as int % 16));
    }
    assert(back =~= id);
}

impl Hash {
    /// The id of which every byte is zero.
    pub fn zero() -> (h: Hash)
        ensures
            h@ == zero_id(),
    {
        let h = Hash { bytes: [0u8; 20] };
        assert(h@ =~= zero_id());
        h
    }

    /// The SHA-1 digest of `data` as an id.
    pub fn new(data: &[u8]) -> (h: Hash)
        ensures
            h@ == spec_sha1(data@),
    {
        Hash { bytes: sha1_digest(data) }
    }

    /// The forty hexadecimal digits of the id, as ASCII bytes.
    pub fn to_hex(&self) -> (v: Vec<u8>)
        ensures
            v@ == hex_bytes(self@),
    {
        let mut v: Vec<u8> = Vec::new();
        let mut i: usize = 0;
        while i < DIGEST_LEN
            invariant
                i <= 20,
                v@.len() == 2 * i,
                forall|j: int| 0 <= j < 2 * i ==> v@[j] == hex_bytes(self@)[j],
            decreases 20 - i,
        {
            let b: u8 = self.bytes[i];
            v.push(hex_digit_byte(b / 16));
            v.push(hex_digit_byte(b % 16));
            i = i + 1;
        }
        assert(v@ =~= hex_bytes(self@));
        v
    }

    /// The id as forty hexadecimal digits.
    pub fn to_plain_str(&self) -> (s: String)
        ensures
            s@ == hex_text(self@),
    {
        let hex = self.to_hex();
        proof {
            lemma_ascii_decodes(hex@);
        }
        string_from_utf8(hex).unwrap()
    }

    /// The id that forty hexadecimal digits spell; `None` for anything else.
    /// Digits of either case are read.
    pub fn from_hex(text: &[u8]) -> (r: Option<Hash>)
        ensures
            match spec_id_from_hex(text@) {
                Some(id) => r matches Some(h) && h@ == id,
                None => r is None,
            },
    {
        if text.len() != HEX_LEN {
            return None;
        }
        let mut bytes: [u8; 20] = [0u8; 20];
        let mut i: usize = 0;
        while i < DIGEST_LEN
            invariant
                i <= 20,
                text@.len() == 40,
                forall|j: int| 0 <= j < 2 * i ==> hex_value(#[trigger] text@[j]) is Some,
                forall|j: int|
                    0 <= j < i ==> bytes@[j] == (hex_value(text@[2 * j])->0 * 16 + hex_value(
                        text@[2 * j + 1],
                    )->0) as u8,
            decreases 20 - i,
        {
            let high: u8 = match hex_digit_value(text[2 * i]) {
                None => {
                    return None;
                },
                Some(d) => d,
            };
            let low: u8 = match hex_digit_value(text[2 * i + 1]) {
                None => {
                    return None;
                },
                Some(d) => d,
            };
            bytes[i] = high * 16 + low;
            i = i + 1;
        }
        let h = Hash { bytes };
        assert(h@ =~= unhex_bytes(text@)->0);
        Some(h)
    }

    /// The id that `text` spells; `None` unless `text` is forty hexadecimal
    /// digits.
    pub fn new_from_str(text: &str) -> (r: Option<Hash>)
        ensures
            match spec_id_from_hex(encode_utf8(text@)) {
                Some(id) => r matches Some(h) && h@ == id,
                None => r is None,
            },
    {
        Hash::from_hex(text.as_bytes())
    }

    /// Whether two ids are the same.
    pub fn same(&self, other: &Hash) -> (r: bool)
        ensures
            r == (self@ == other@),
    {
        let mut i: usize = 0;
        while i < DIGEST_LEN
            invariant
                i <= 20,
                forall|j: int| 0 <= j < i ==> self@[j] == other@[j],
            decreases 20 - i,
        {
            if self.bytes[i] != other.bytes[i] {
                return false;
            }
            i = i + 1;
        }
        assert(self@ =~= other@);
        true
    }

    /// Whether this is the all-zero id.
    pub fn is_zero(&self) -> (r: bool)
        ensures
            r == (self@ == zero_id()),
    {
        let zero = Hash::zero();
        self.same(&zero)
    }
}

} // verus!
