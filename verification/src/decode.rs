//! Decoding the legacy single-byte Cyrillic encoding.
//!
//! The whole document — header line and rows alike — is windows-1251
//! encoded and must be decoded before any string-level parsing. The
//! decoded character of each byte is named by the uninterpreted
//! [`cp1251_char`]; the WHATWG windows-1251 index bundled with the
//! `encoding` crate maps every byte, so the strict decode is total.

use vstd::prelude::*;

use encoding::Encoding;

verus! {

/// The character that the windows-1251 table assigns to byte `b`.
pub uninterp spec fn cp1251_char(b: u8) -> char;

/// The decoded text of a windows-1251 byte sequence.
pub open spec fn spec_decode(bytes: Seq<u8>) -> Seq<char> {
    bytes.map_values(|b: u8| cp1251_char(b))
}

/// Relies on `encoding::all::WINDOWS_1251.decode` with the strict trap:
/// each byte below 0x80 decodes to itself, each byte at or above 0x80
/// decodes through the WHATWG windows-1251 index, which maps every such
/// byte, so the decode never fails.
#[verifier::external_body]
pub fn decode_cp1251(raw: &[u8]) -> (r: String)
    ensures
        r@ == raw@.map_values(|b: u8| cp1251_char(b)),
        forall|k: int| 0 <= k < raw@.len() && raw@[k] <= 0x7f ==> r@[k] == raw@[k] as char,
{
    match encoding::all::WINDOWS_1251.decode(raw, encoding::DecoderTrap::Strict) {
        Ok(s) => s,
        Err(_) => String::new(),
    }
}

} // verus!
