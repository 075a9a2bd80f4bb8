//! The encodings of booleans, numbers, characters and strings.
use vstd::prelude::*;
use vstd::slice::{slice_subrange, slice_to_vec};
use vstd::utf8::{decode_utf8, valid_utf8};

use crate::leb128::{lemma_integer_end, read_signed, read_unsigned, signed_at, unsigned_at};
use crate::scan::{ReceiveError, Scan, Scanned};

verus! {

/// One byte, of which only the number one is `true`.
pub open spec fn bool_at(b: Seq<u8>, at: int) -> Scan<bool> {
    if at < b.len() {
        Scan::Done(b[at] == 1, at + 1)
    } else {
        Scan::Incomplete
    }
}

/// One byte.
pub open spec fn u8_at(b: Seq<u8>, at: int) -> Scan<u8> {
    if at < b.len() {
        Scan::Done(b[at], at + 1)
    } else {
        Scan::Incomplete
    }
}

/// One byte, in two's complement.
pub open spec fn s8_at(b: Seq<u8>, at: int) -> Scan<i8> {
    if at < b.len() {
        Scan::Done(
            if b[at] < 128 {
                b[at] as i8
            } else {
                (b[at] - 256) as i8
            },
            at + 1,
        )
    } else {
        Scan::Incomplete
    }
}

/// An unsigned integer of at most `max`, or the error that says it is larger.
pub open spec fn bounded_at(b: Seq<u8>, at: int, max: u64, e: ReceiveError) -> Scan<u64> {
    match unsigned_at(b, at) {
        Scan::Done(v, next) => if v <= max {
            Scan::Done(v, next)
        } else {
            Scan::Failed(e)
        },
        scan => scan,
    }
}

/// An unsigned integer of 16 bits.
pub open spec fn u16_at(b: Seq<u8>, at: int) -> Scan<u16> {
    match bounded_at(b, at, u16::MAX as u64, ReceiveError::IntegerOverflow) {
        Scan::Done(v, next) => Scan::Done(v as u16, next),
        Scan::Incomplete => Scan::Incomplete,
        Scan::Failed(e) => Scan::Failed(e),
    }
}

/// An unsigned integer of 32 bits.
pub open spec fn u32_at(b: Seq<u8>, at: int) -> Scan<u32> {
    match bounded_at(b, at, u32::MAX as u64, ReceiveError::IntegerOverflow) {
        Scan::Done(v, next) => Scan::Done(v as u32, next),
        Scan::Incomplete => Scan::Incomplete,
        Scan::Failed(e) => Scan::Failed(e),
    }
}

/// A signed integer of 16 bits.
pub open spec fn s16_at(b: Seq<u8>, at: int) -> Scan<i16> {
    match signed_at(b, at) {
        Scan::Done(v, next) => if i16::MIN <= v <= i16::MAX {
            Scan::Done(v as i16, next)
        } else {
            Scan::Failed(ReceiveError::IntegerOverflow)
        },
        Scan::Incomplete => Scan::Incomplete,
        Scan::Failed(e) => Scan::Failed(e),
    }
}

/// A signed integer of 32 bits.
pub open spec fn s32_at(b: Seq<u8>, at: int) -> Scan<i32> {
    match signed_at(b, at) {
        Scan::Done(v, next) => if i32::MIN <= v <= i32::MAX {
            Scan::Done(v as i32, next)
        } else {
            Scan::Failed(ReceiveError::IntegerOverflow)
        },
        Scan::Incomplete => Scan::Incomplete,
        Scan::Failed(e) => Scan::Failed(e),
    }
}

/// The number whose bytes, least significant first, are `b[at..at + n]`.
pub open spec fn little_endian(b: Seq<u8>, at: int, n: nat) -> nat
    decreases n,
{
    if n == 0 {
        0
    } else {
        b[at] as nat + 256 * little_endian(b, at + 1, (n - 1) as nat)
    }
}

/// The bits of a single precision number: four bytes, read once eight are there.
pub open spec fn float32_at(b: Seq<u8>, at: int) -> Scan<u32> {
    if at + 8 <= b.len() {
        Scan::Done(little_endian(b, at, 4) as u32, at + 4)
    } else {
        Scan::Incomplete
    }
}

/// The bits of a double precision number: eight bytes.
pub open spec fn float64_at(b: Seq<u8>, at: int) -> Scan<u64> {
    if at + 8 <= b.len() {
        Scan::Done(little_endian(b, at, 8) as u64, at + 8)
    } else {
        Scan::Incomplete
    }
}

/// Whether a number is a Unicode scalar value.
pub open spec fn is_scalar(v: u32) -> bool {
    v <= 0xD7FF || 0xE000 <= v <= 0x10FFFF
}

/// The number of a Unicode scalar value.
pub open spec fn char_at(b: Seq<u8>, at: int) -> Scan<char> {
    match u32_at(b, at) {
        Scan::Done(v, next) => if is_scalar(v) {
            Scan::Done(v as char, next)
        } else {
            Scan::Failed(ReceiveError::InvalidChar)
        },
        Scan::Incomplete => Scan::Incomplete,
        Scan::Failed(e) => Scan::Failed(e),
    }
}

/// A length in bytes, and that many bytes of UTF-8.
pub open spec fn string_at(b: Seq<u8>, at: int) -> Scan<Seq<char>> {
    match bounded_at(b, at, usize::MAX as u64, ReceiveError::StringLength) {
        Scan::Done(len, start) => if start + len > b.len() {
            Scan::Incomplete
        } else if valid_utf8(b.subrange(start, start + len)) {
            Scan::Done(decode_utf8(b.subrange(start, start + len)), start + len)
        } else {
            Scan::Failed(ReceiveError::InvalidUtf8)
        },
        Scan::Incomplete => Scan::Incomplete,
        Scan::Failed(e) => Scan::Failed(e),
    }
}

/// The number of elements of a list.
pub open spec fn list_header_at(b: Seq<u8>, at: int) -> Scan<u64> {
    bounded_at(b, at, u32::MAX as u64, ReceiveError::ListLength)
}

/// The index of a case.
pub open spec fn discriminant_at(b: Seq<u8>, at: int) -> Scan<u64> {
    bounded_at(b, at, u32::MAX as u64, ReceiveError::Discriminant)
}

/// The content of a scanned string.
pub open spec fn string_scan(s: Scanned<String>) -> Scan<Seq<char>> {
    match s {
        Scanned::Done(v, next) => Scan::Done(v@, next as int),
        Scanned::Incomplete => Scan::Incomplete,
        Scanned::Failed(e) => Scan::Failed(e),
    }
}

/// Calls [`char::from_u32`], which gives the character of a number if and only if the number is a
/// Unicode scalar value.
#[verifier::external_body]
fn char_from_u32(v: u32) -> (c: Option<char>)
    ensures
        c is Some <==> is_scalar(v),
        c matches Some(c) ==> c == v as char,
{
    char::from_u32(v)
}

/// Calls [`String::from_utf8`], which gives the characters that the bytes encode if and only if
/// the bytes are valid UTF-8.
#[verifier::external_body]
fn string_from_utf8(bytes: Vec<u8>) -> (s: Option<String>)
    ensures
        s is Some <==> valid_utf8(bytes@),
        s matches Some(s) ==> s@ == decode_utf8(bytes@),
{
    String::from_utf8(bytes).ok()
}

/// Reads a boolean.
pub fn receive_bool(b: &[u8], at: usize) -> (r: Scanned<bool>)
    ensures
        r@ == bool_at(b@, at as int),
{
    if at < b.len() {
        Scanned::Done(b[at] == 1, at + 1)
    } else {
        Scanned::Incomplete
    }
}

/// Reads an unsigned byte.
pub fn receive_u8(b: &[u8], at: usize) -> (r: Scanned<u8>)
    ensures
        r@ == u8_at(b@, at as int),
{
    if at < b.len() {
        Scanned::Done(b[at], at + 1)
    } else {
        Scanned::Incomplete
    }
}

/// Reads a signed byte.
pub fn receive_s8(b: &[u8], at: usize) -> (r: Scanned<i8>)
    ensures
        r@ == s8_at(b@, at as int),
{
    if at < b.len() {
        let v: u8 = b[at];
        let v: i8 = if v < 128 {
            v as i8
        } else {
            (v as i16 - 256) as i8
        };
        Scanned::Done(v, at + 1)
    } else {
        Scanned::Incomplete
    }
}

/// Reads an unsigned integer and holds it to a bound.
fn receive_bounded(b: &[u8], at: usize, max: u64, e: ReceiveError) -> (r: Scanned<u64>)
    ensures
        r@ == bounded_at(b@, at as int, max, e),
{
    match read_unsigned(b, at) {
        Scanned::Done(v, next) => if v <= max {
            Scanned::Done(v, next)
        } else {
            Scanned::Failed(e)
        },
        r => r,
    }
}

/// Reads an unsigned integer of 16 bits.
pub fn receive_u16(b: &[u8], at: usize) -> (r: Scanned<u16>)
    ensures
        r@ == u16_at(b@, at as int),
{
    match receive_bounded(b, at, u16::MAX as u64, ReceiveError::IntegerOverflow) {
        Scanned::Done(v, next) => Scanned::Done(v as u16, next),
        Scanned::Incomplete => Scanned::Incomplete,
        Scanned::Failed(e) => Scanned::Failed(e),
    }
}

/// Reads an unsigned integer of 32 bits.
pub fn receive_u32(b: &[u8], at: usize) -> (r: Scanned<u32>)
    ensures
        r@ == u32_at(b@, at as int),
{
    match receive_bounded(b, at, u32::MAX as u64, ReceiveError::IntegerOverflow) {
        Scanned::Done(v, next) => Scanned::Done(v as u32, next),
        Scanned::Incomplete => Scanned::Incomplete,
        Scanned::Failed(e) => Scanned::Failed(e),
    }
}

/// Reads a signed integer of 16 bits.
pub fn receive_s16(b: &[u8], at: usize) -> (r: Scanned<i16>)
    ensures
        r@ == s16_at(b@, at as int),
{
    match read_signed(b, at) {
        Scanned::Done(v, next) => if i16::MIN as i64 <= v && v <= i16::MAX as i64 {
            Scanned::Done(v as i16, next)
        } else {
            Scanned::Failed(ReceiveError::IntegerOverflow)
        },
        Scanned::Incomplete => Scanned::Incomplete,
        Scanned::Failed(e) => Scanned::Failed(e),
    }
}

/// Reads a signed integer of 32 bits.
pub fn receive_s32(b: &[u8], at: usize) -> (r: Scanned<i32>)
    ensures
        r@ == s32_at(b@, at as int),
{
    match read_signed(b, at) {
        Scanned::Done(v, next) => if i32::MIN as i64 <= v && v <= i32::MAX as i64 {
            Scanned::Done(v as i32, next)
        } else {
            Scanned::Failed(ReceiveError::IntegerOverflow)
        },
        Scanned::Incomplete => Scanned::Incomplete,
        Scanned::Failed(e) => Scanned::Failed(e),
    }
}

/// Whether at least `n` bytes are left at `at`.
fn has_at_least(b: &[u8], at: usize, n: usize) -> (r: bool)
    ensures
        r == (at + n <= b@.len()),
        r ==> at + n <= usize::MAX,
{
    at <= b.len() && n <= b.len() - at
}

/// Reads the bits of a single precision number.
pub fn receive_float32(b: &[u8], at: usize) -> (r: Scanned<u32>)
    ensures
        r@ == float32_at(b@, at as int),
{
    if has_at_least(b, at, 8) {
        reveal_with_fuel(little_endian, 5);
        let v: u32 = b[at] as u32 + 256 * (b[at + 1] as u32 + 256 * (b[at + 2] as u32 + 256 * (b[at
            + 3] as u32)));
        Scanned::Done(v, at + 4)
    } else {
        Scanned::Incomplete
    }
}

/// Reads the bits of a double precision number.
pub fn receive_float64(b: &[u8], at: usize) -> (r: Scanned<u64>)
    ensures
        r@ == float64_at(b@, at as int),
{
    if has_at_least(b, at, 8) {
        reveal_with_fuel(little_endian, 9);
        let high: u64 = b[at + 4] as u64 + 256 * (b[at + 5] as u64 + 256 * (b[at + 6] as u64 + 256
            * (b[at + 7] as u64)));
        let v: u64 = b[at] as u64 + 256 * (b[at + 1] as u64 + 256 * (b[at + 2] as u64 + 256 * (b[at
            + 3] as u64 + 256 * high)));
        Scanned::Done(v, at + 8)
    } else {
        Scanned::Incomplete
    }
}

/// Reads a character.
pub fn receive_char(b: &[u8], at: usize) -> (r: Scanned<char>)
    ensures
        r@ == char_at(b@, at as int),
{
    match receive_u32(b, at) {
        Scanned::Done(v, next) => match char_from_u32(v) {
            Some(c) => Scanned::Done(c, next),
            None => Scanned::Failed(ReceiveError::InvalidChar),
        },
        Scanned::Incomplete => Scanned::Incomplete,
        Scanned::Failed(e) => Scanned::Failed(e),
    }
}

/// Reads a string.
pub fn receive_string(b: &[u8], at: usize) -> (r: Scanned<String>)
    ensures
        string_scan(r) == string_at(b@, at as int),
{
    match receive_bounded(b, at, usize::MAX as u64, ReceiveError::StringLength) {
        Scanned::Done(len, start) => {
            proof {
                lemma_integer_end(b@, at as int);
            }
            if !has_at_least(b, start, len as usize) {
                return Scanned::Incomplete;
            }
            let end: usize = start + len as usize;
            match string_from_utf8(slice_to_vec(slice_subrange(b, start, end))) {
                Some(s) => Scanned::Done(s, end),
                None => Scanned::Failed(ReceiveError::InvalidUtf8),
            }
        },
        Scanned::Incomplete => Scanned::Incomplete,
        Scanned::Failed(e) => Scanned::Failed(e),
    }
}

/// Reads the number of elements of a list.
pub fn receive_list_header(b: &[u8], at: usize) -> (r: Scanned<u64>)
    ensures
        r@ == list_header_at(b@, at as int),
{
    receive_bounded(b, at, u32::MAX as u64, ReceiveError::ListLength)
}

/// Reads the index of a case.
pub fn receive_discriminant(b: &[u8], at: usize) -> (r: Scanned<u64>)
    ensures
        r@ == discriminant_at(b@, at as int),
{
    receive_bounded(b, at, u32::MAX as u64, ReceiveError::Discriminant)
}

} // verus!
