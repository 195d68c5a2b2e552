//! The 160-bit item digest, and its text form of 40 lowercase hex digits.

use sha1::Digest;
use vstd::prelude::*;

use crate::error::ImageError;

verus! {

/// What SHA-1 gives for `data`.
pub uninterp spec fn sha1_of(data: Seq<u8>) -> Seq<u8>;

/// Relies on `sha1::Sha1::digest`: the 20-byte SHA-1 digest, which depends on
/// the bytes alone.
#[verifier::external_body]
fn sha1_digest(data: &[u8]) -> (r: [u8; 20])
    ensures
        r@ == sha1_of(data@),
{
    sha1::Sha1::digest(data).into()
}

#[verifier::external_type_specification]
#[verifier::external_body]
pub struct ExFromHexError(hex::FromHexError);

pub open spec fn is_hex_digit(c: u8) -> bool {
    (0x30 <= c <= 0x39) || (0x61 <= c <= 0x66) || (0x41 <= c <= 0x46)
}

/// The value of a hex digit of either case.
pub open spec fn hex_digit_value(c: u8) -> int {
    if 0x30 <= c <= 0x39 {
        c - 0x30
    } else if 0x61 <= c <= 0x66 {
        c - 0x61 + 10
    } else {
        c - 0x41 + 10
    }
}

pub open spec fn all_hex_digits(s: Seq<u8>) -> bool {
    forall|i: int| 0 <= i < s.len() ==> is_hex_digit(#[trigger] s[i])
}

/// The bytes that hex text stands for: two digits to a byte, the high one
/// first.
pub open spec fn hex_decode(s: Seq<u8>) -> Seq<u8> {
    Seq::new(
        s.len() / 2,
        |i: int| (hex_digit_value(s[2 * i]) * 16 + hex_digit_value(s[2 * i + 1])) as u8,
    )
}

/// Relies on `hex::FromHex` for `[u8; 20]` (through `hex::decode_to_slice`):
/// it succeeds exactly on 40 hex digits of either case, and decodes them two
/// to a byte, high digit first.
#[verifier::external_body]
fn hex_to_array(s: &[u8]) -> (r: Result<[u8; 20], hex::FromHexError>)
    ensures
        r is Ok <==> (s@.len() == 40 && all_hex_digits(s@)),
        r matches Ok(a) ==> a@ == hex_decode(s@),
{
    <[u8; 20] as hex::FromHex>::from_hex(s)
}

/// The lowercase hex digit for a value below 16.
pub open spec fn hex_digit_lower(n: u8) -> u8 {
    if n < 10 {
        (0x30 + n) as u8
    } else {
        (0x61 + n - 10) as u8
    }
}

/// `data` written as lowercase hex, two digits to a byte, the high one first.
pub open spec fn hex_lower(data: Seq<u8>) -> Seq<u8>
    decreases data.len(),
{
    if data.len() == 0 {
        Seq::empty()
    } else {
        hex_lower(data.drop_last()) + seq![
            hex_digit_lower(data.last() >> 4),
            hex_digit_lower(data.last() & 0xf),
        ]
    }
}

/// A SHA-1 digest.
#[derive(Clone, Copy, Debug)]
pub struct Sha1sum {
    pub bytes: [u8; 20],
}

impl View for Sha1sum {
    type V = Seq<u8>;

    open spec fn view(&self) -> Seq<u8> {
        self.bytes@
    }
}

impl Sha1sum {
    /// Parses 40 hex digits of either case.
    pub fn from_hex(slice: &[u8]) -> (r: Result<Self, ImageError>)
        ensures
            r is Ok <==> (slice@.len() == 40 && all_hex_digits(slice@)),
            r matches Ok(d) ==> d@ == hex_decode(slice@),
            r matches Err(e) ==> e is InvalidDigest,
    {
        match hex_to_array(slice) {
            Ok(bytes) => Ok(Sha1sum { bytes }),
            Err(_) => Err(ImageError::InvalidDigest),
        }
    }

    /// The digest of `data`.
    pub fn from_data(data: &[u8]) -> (r: Self)
        ensures
            r@ == sha1_of(data@),
    {
        Sha1sum { bytes: sha1_digest(data) }
    }

    /// The digest as 40 lowercase hex digits.
    pub fn to_hex(&self) -> (r: Vec<u8>)
        ensures
            r@ == hex_lower(self@),
            r@.len() == 40,
    {
        let mut out: Vec<u8> = Vec::new();
        let mut i: usize = 0;
        while i < 20
            invariant
                i <= 20,
                self@.len() == 20,
                out@ == hex_lower(self@.subrange(0, i as int)),
                out@.len() == 2 * i,
            decreases 20 - i,
        {
            let byte = self.bytes[i];
            let high: u8 = byte >> 4;
            let low: u8 = byte & 0xf;
            assert(high < 16 && low < 16) by (bit_vector)
                requires
                    high == byte >> 4,
                    low == byte & 0xf,
            ;
            out.push(hex_digit(high));
            out.push(hex_digit(low));
            assert(self@.subrange(0, i + 1).drop_last() =~= self@.subrange(0, i as int));
            i = i + 1;
        }
        assert(self@.subrange(0, 20) =~= self@);
        out
    }
}

impl PartialEq for Sha1sum {
    fn eq(&self, other: &Sha1sum) -> (r: bool) {
        let mut i: usize = 0;
        while i < 20
            invariant
                i <= 20,
                self@.len() == 20,
                other@.len() == 20,
                self@.subrange(0, i as int) == other@.subrange(0, i as int),
            decreases 20 - i,
        {
            if self.bytes[i] != other.bytes[i] {
                return false;
            }
            assert(self@.subrange(0, i + 1) =~= self@.subrange(0, i as int).push(self@[i as int]));
            assert(other@.subrange(0, i + 1) =~= other@.subrange(0, i as int).push(
                other@[i as int],
            ));
            i = i + 1;
        }
        assert(self@ =~= self@.subrange(0, 20));
        assert(other@ =~= other@.subrange(0, 20));
        true
    }
}

impl vstd::std_specs::cmp::PartialEqSpecImpl for Sha1sum {
    open spec fn obeys_eq_spec() -> bool {
        true
    }

    open spec fn eq_spec(&self, other: &Sha1sum) -> bool {
        self@ == other@
    }
}

impl Eq for Sha1sum {

}

fn hex_digit(n: u8) -> (r: u8)
    requires
        n < 16,
    ensures
        r == hex_digit_lower(n),
{
    if n < 10 {
        0x30 + n
    } else {
        0x61 + n - 10
    }
}

} // verus!
