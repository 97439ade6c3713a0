//! Reading labels and words out of bytes, and writing numbers as text.
use vstd::endian::{endianness, Endian};
use vstd::prelude::*;
use vstd::utf8::{decode_utf8, valid_utf8};

verus! {

#[verifier::external_type_specification]
#[verifier::external_body]
pub struct ExUtf8Error(core::str::Utf8Error);

/// `core::str::from_utf8` succeeds on exactly the well-formed UTF-8 byte sequences, with the text
/// that they encode.
pub assume_specification[ core::str::from_utf8 ](v: &[u8]) -> (res: Result<
    &str,
    core::str::Utf8Error,
>)
    ensures
        res is Ok <==> valid_utf8(v@),
        res matches Ok(s) ==> s@ == decode_utf8(v@),
;

/// The word that four bytes hold, lowest byte first.
pub open spec fn word_le(b: Seq<u8>) -> int {
    b[0] + 0x100 * b[1] + 0x1_0000 * b[2] + 0x100_0000 * b[3]
}

/// The word that four bytes hold, highest byte first.
pub open spec fn word_be(b: Seq<u8>) -> int {
    b[3] + 0x100 * b[2] + 0x1_0000 * b[1] + 0x100_0000 * b[0]
}

/// The word that four bytes hold in the byte order of the machine.
pub open spec fn word_ne(b: Seq<u8>) -> int {
    match endianness() {
        Endian::Little => word_le(b),
        Endian::Big => word_be(b),
    }
}

/// Reads with `u32::from_ne_bytes`. Claimed of it: the bytes are taken in the byte order of the
/// machine.
#[verifier::external_body]
pub(crate) fn u32_from_ne_bytes(bytes: [u8; 4]) -> (r: u32)
    ensures
        r as int == word_ne(bytes@),
{
    u32::from_ne_bytes(bytes)
}

/// The words that `bytes` hold in the byte order of the machine; what is left over of a word at
/// the end is not counted.
pub open spec fn words_ne(bytes: Seq<u8>) -> Seq<u32> {
    Seq::new(bytes.len() / 4, |i: int| word_ne(bytes.subrange(4 * i, 4 * i + 4)) as u32)
}

/// The decimal digits of `n`, without leading zeros.
pub open spec fn decimal(n: nat) -> Seq<char>
    decreases n,
{
    let digit = ('0' as u32 + n % 10) as char;
    if n < 10 {
        seq![digit]
    } else {
        decimal(n / 10).push(digit)
    }
}

/// Formats with `<u64 as core::fmt::Debug>::fmt`. Claimed of it: without further options it
/// writes the number in decimal.
#[verifier::external_body]
pub(crate) fn format_u64(n: u64) -> (r: String)
    ensures
        r@ == decimal(n as nat),
{
    format!("{:?}", n)
}

} // verus!
