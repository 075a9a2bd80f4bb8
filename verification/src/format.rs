//! What the payload of a value looks like, type by type.
//!
//! Decoding is told here by what it makes of the bytes: of the first one and what follows it for
//! an integer, of the parts one after the other for what is made of parts.
use vstd::prelude::*;
use vstd::utf8::{decode_utf8, valid_utf8};

use crate::leb128::{
    integer_end, lemma_integer_end, signed_at, signed_value, unsigned_at, unsigned_value,
};
use crate::primitive::{
    bool_at, char_at, discriminant_at, float32_at, float64_at, list_header_at, little_endian,
    s16_at, s32_at, s8_at, string_at, string_scan, u16_at, u32_at, u8_at,
};
use crate::receive::{
    elements, flag_count, has_bit, receive, receive_value, selected, sub_at, Outcome,
    Received,
};
use crate::scan::{ReceiveError, Scan, Scanned};
use crate::subscription::{AsyncSubscription, SubModel};
use crate::value::{Case, Field, Type, Val, ValModel};

verus! {

/// An unsigned integer is its byte, where that is the last one. Otherwise it is the low bits of the
/// byte and 128 times the integer that follows, as long as there are no more than ten bytes and no
/// more than 64 bits.
pub proof fn unsigned_by_bytes(b: Seq<u8>, at: int)
    requires
        0 <= at,
    ensures
        at >= b.len() ==> unsigned_at(b, at) is Incomplete,
        at < b.len() && b[at] < 128 ==> unsigned_at(b, at) == Scan::Done(b[at] as u64, at + 1),
        at < b.len() && b[at] >= 128 ==> match unsigned_at(b, at + 1) {
            Scan::Done(v, next) => unsigned_at(b, at) == if next - at <= 10 && b[at] - 128 + 128 * v
                <= u64::MAX {
                Scan::Done((b[at] - 128 + 128 * v) as u64, next)
            } else {
                Scan::Failed(ReceiveError::Leb128Overflow)
            },
            Scan::Incomplete => unsigned_at(b, at) is Incomplete,
            Scan::Failed(_) => unsigned_at(b, at) == Scan::<u64>::Failed(
                ReceiveError::Leb128Overflow,
            ),
        },
{
    if at < b.len() {
        if b[at] < 128 {
            reveal_with_fuel(unsigned_value, 2);
            reveal_with_fuel(integer_end, 2);
        } else {
            lemma_integer_end(b, at + 1);
            if let Some(end) = integer_end(b, at + 1) {
                assert(unsigned_value(b, at, end) == b[at] - 128 + 128 * unsigned_value(
                    b,
                    at + 1,
                    end,
                ));
            }
        }
    }
}

/// A signed integer is its byte, where that is the last one, with its seventh bit as the sign.
/// Otherwise it is the low bits of the byte and 128 times the integer that follows, as long as
/// there are no more than ten bytes and no more than 64 bits.
pub proof fn signed_by_bytes(b: Seq<u8>, at: int)
    requires
        0 <= at,
    ensures
        at >= b.len() ==> signed_at(b, at) is Incomplete,
        at < b.len() && b[at] < 64 ==> signed_at(b, at) == Scan::Done(b[at] as i64, at + 1),
        at < b.len() && 64 <= b[at] < 128 ==> signed_at(b, at) == Scan::Done(
            (b[at] - 128) as i64,
            at + 1,
        ),
        at < b.len() && b[at] >= 128 ==> match signed_at(b, at + 1) {
            Scan::Done(v, next) => signed_at(b, at) == if next - at <= 10 && i64::MIN <= b[at] - 128
                + 128 * v <= i64::MAX {
                Scan::Done((b[at] - 128 + 128 * v) as i64, next)
            } else {
                Scan::Failed(ReceiveError::Leb128Overflow)
            },
            Scan::Incomplete => signed_at(b, at) is Incomplete,
            Scan::Failed(_) => signed_at(b, at) == Scan::<i64>::Failed(
                ReceiveError::Leb128Overflow,
            ),
        },
{
    if at < b.len() {
        if b[at] < 128 {
            reveal_with_fuel(integer_end, 2);
        } else {
            lemma_integer_end(b, at + 1);
            if let Some(end) = integer_end(b, at + 1) {
                assert(signed_value(b, at, end) == b[at] - 128 + 128 * signed_value(
                    b,
                    at + 1,
                    end,
                ));
            }
        }
    }
}

/// Booleans and small integers are one byte.
pub proof fn single_bytes(b: Seq<u8>, at: int)
    requires
        0 <= at,
    ensures
        at >= b.len() ==> bool_at(b, at) is Incomplete && u8_at(b, at) is Incomplete && s8_at(
            b,
            at,
        ) is Incomplete,
        at < b.len() ==> bool_at(b, at) == Scan::Done(b[at] == 1, at + 1),
        at < b.len() ==> u8_at(b, at) == Scan::Done(b[at], at + 1),
        at < b.len() ==> (s8_at(b, at) matches Scan::Done(v, next) && next == at + 1 && (v == b[at]
            || v == b[at] - 256)),
{
}

/// The smaller integers are those of 64 bits that fit.
pub proof fn integers_that_fit(b: Seq<u8>, at: int)
    ensures
        match unsigned_at(b, at) {
            Scan::Done(v, next) => {
                &&& v <= 0xffff ==> (u16_at(b, at) matches Scan::Done(w, end) && w == v && end
                    == next)
                &&& v > 0xffff ==> u16_at(b, at) == Scan::<u16>::Failed(
                    ReceiveError::IntegerOverflow,
                )
                &&& v <= 0xffff_ffff ==> (u32_at(b, at) matches Scan::Done(w, end) && w == v && end
                    == next)
                &&& v > 0xffff_ffff ==> u32_at(b, at) == Scan::<u32>::Failed(
                    ReceiveError::IntegerOverflow,
                )
                &&& v <= 0xffff_ffff ==> list_header_at(b, at) == Scan::Done(v, next)
                    && discriminant_at(b, at) == Scan::Done(v, next)
                &&& v > 0xffff_ffff ==> list_header_at(b, at) == Scan::<u64>::Failed(
                    ReceiveError::ListLength,
                ) && discriminant_at(b, at) == Scan::<u64>::Failed(ReceiveError::Discriminant)
            },
            Scan::Incomplete => u16_at(b, at) is Incomplete && u32_at(b, at) is Incomplete
                && list_header_at(b, at) is Incomplete && discriminant_at(b, at) is Incomplete,
            Scan::Failed(e) => u16_at(b, at) == Scan::<u16>::Failed(e) && u32_at(b, at) == Scan::<
                u32,
            >::Failed(e) && list_header_at(b, at) == Scan::<u64>::Failed(e) && discriminant_at(
                b,
                at,
            ) == Scan::<u64>::Failed(e),
        },
        match signed_at(b, at) {
            Scan::Done(v, next) => {
                &&& -0x8000 <= v <= 0x7fff ==> (s16_at(b, at) matches Scan::Done(w, end) && w == v
                    && end == next)
                &&& v < -0x8000 || v > 0x7fff ==> s16_at(b, at) == Scan::<i16>::Failed(
                    ReceiveError::IntegerOverflow,
                )
                &&& -0x8000_0000 <= v <= 0x7fff_ffff ==> (s32_at(b, at) matches Scan::Done(w, end)
                    && w == v && end == next)
                &&& v < -0x8000_0000 || v > 0x7fff_ffff ==> s32_at(b, at) == Scan::<i32>::Failed(
                    ReceiveError::IntegerOverflow,
                )
            },
            Scan::Incomplete => s16_at(b, at) is Incomplete && s32_at(b, at) is Incomplete,
            Scan::Failed(e) => s16_at(b, at) == Scan::<i16>::Failed(e) && s32_at(b, at) == Scan::<
                i32,
            >::Failed(e),
        },
{
}

/// Floating point numbers are their bits, least significant byte first. Those of single precision
/// are read only once there are as many bytes as double precision takes.
pub proof fn float_bytes(b: Seq<u8>, at: int)
    requires
        0 <= at,
    ensures
        at + 8 > b.len() ==> float32_at(b, at) is Incomplete && float64_at(b, at) is Incomplete,
        at + 8 <= b.len() ==> (float32_at(b, at) matches Scan::Done(v, next) && next == at + 4 && v
            == b[at] + 0x100 * b[at + 1] + 0x1_0000 * b[at + 2] + 0x100_0000 * b[at + 3]),
        at + 8 <= b.len() ==> (float64_at(b, at) matches Scan::Done(v, next) && next == at + 8 && v
            == b[at] + 0x100 * b[at + 1] + 0x1_0000 * b[at + 2] + 0x100_0000 * b[at + 3]
            + 0x1_0000_0000 * b[at + 4] + 0x100_0000_0000 * b[at + 5] + 0x1_0000_0000_0000 * b[at
            + 6] + 0x100_0000_0000_0000 * b[at + 7]),
{
    if at + 8 <= b.len() {
        reveal_with_fuel(little_endian, 9);
        assert(b[at] <= 255 && b[at + 1] <= 255 && b[at + 2] <= 255 && b[at + 3] <= 255);
        assert(b[at + 4] <= 255 && b[at + 5] <= 255 && b[at + 6] <= 255 && b[at + 7] <= 255);
    }
}

/// A character is its number, which is any but those of surrogates and those past the last one.
pub proof fn char_by_number(b: Seq<u8>, at: int)
    ensures
        match u32_at(b, at) {
            Scan::Done(v, next) => if v < 0xd800 || (0xe000 <= v && v <= 0x10_ffff) {
                char_at(b, at) matches Scan::Done(c, end) && c as u32 == v && end == next
            } else {
                char_at(b, at) == Scan::<char>::Failed(ReceiveError::InvalidChar)
            },
            Scan::Incomplete => char_at(b, at) is Incomplete,
            Scan::Failed(e) => char_at(b, at) == Scan::<char>::Failed(e),
        },
{
}

/// A string is the number of its bytes, and so many bytes of UTF-8.
pub proof fn string_by_bytes(b: Seq<u8>, at: int)
    ensures
        match unsigned_at(b, at) {
            Scan::Done(n, start) => if n > usize::MAX {
                string_at(b, at) == Scan::<Seq<char>>::Failed(ReceiveError::StringLength)
            } else if b.len() < start + n {
                string_at(b, at) is Incomplete
            } else if valid_utf8(b.subrange(start, start + n)) {
                string_at(b, at) == Scan::Done(
                    decode_utf8(b.subrange(start, start + n)),
                    start + n,
                )
            } else {
                string_at(b, at) == Scan::<Seq<char>>::Failed(ReceiveError::InvalidUtf8)
            },
            Scan::Incomplete => string_at(b, at) is Incomplete,
            Scan::Failed(e) => string_at(b, at) == Scan::<Seq<char>>::Failed(e),
        },
{
}

/// What was read is what is said of it.
pub proof fn scanned_content<V>(s: Scanned<V>, text: Scanned<String>)
    ensures
        match text {
            Scanned::Done(v, next) => string_scan(text) == Scan::Done(v@, next as int),
            Scanned::Incomplete => string_scan(text) is Incomplete,
            Scanned::Failed(e) => string_scan(text) == Scan::<Seq<char>>::Failed(e),
        },
        match s {
            Scanned::Done(v, next) => s@ == Scan::Done(v, next as int),
            Scanned::Incomplete => s@ is Incomplete,
            Scanned::Failed(e) => s@ == Scan::<V>::Failed(e),
        },
{
}

/// Values of the plain types are what is read of them, with whatever subscription.
pub proof fn plain_values<T>(sub: Option<SubModel<T>>, b: Seq<u8>, at: int)
    ensures
        match bool_at(b, at) {
            Scan::Done(v, next) => receive(Type::Bool, sub, b, at) == Outcome::<
                ValModel,
                T,
            >::Done(ValModel::Bool(v), next),
            Scan::Incomplete => receive(Type::Bool, sub, b, at) is Incomplete,
            Scan::Failed(e) => receive(Type::Bool, sub, b, at) == Outcome::<
                ValModel,
                T,
            >::Failed(e),
        },
        match u8_at(b, at) {
            Scan::Done(v, next) => receive(Type::U8, sub, b, at) == Outcome::<
                ValModel,
                T,
            >::Done(ValModel::U8(v), next),
            Scan::Incomplete => receive(Type::U8, sub, b, at) is Incomplete,
            Scan::Failed(e) => receive(Type::U8, sub, b, at) == Outcome::<
                ValModel,
                T,
            >::Failed(e),
        },
        match u16_at(b, at) {
            Scan::Done(v, next) => receive(Type::U16, sub, b, at) == Outcome::<
                ValModel,
                T,
            >::Done(ValModel::U16(v), next),
            Scan::Incomplete => receive(Type::U16, sub, b, at) is Incomplete,
            Scan::Failed(e) => receive(Type::U16, sub, b, at) == Outcome::<
                ValModel,
                T,
            >::Failed(e),
        },
        match u32_at(b, at) {
            Scan::Done(v, next) => receive(Type::U32, sub, b, at) == Outcome::<
                ValModel,
                T,
            >::Done(ValModel::U32(v), next),
            Scan::Incomplete => receive(Type::U32, sub, b, at) is Incomplete,
            Scan::Failed(e) => receive(Type::U32, sub, b, at) == Outcome::<
                ValModel,
                T,
            >::Failed(e),
        },
        match unsigned_at(b, at) {
            Scan::Done(v, next) => receive(Type::U64, sub, b, at) == Outcome::<
                ValModel,
                T,
            >::Done(ValModel::U64(v), next),
            Scan::Incomplete => receive(Type::U64, sub, b, at) is Incomplete,
            Scan::Failed(e) => receive(Type::U64, sub, b, at) == Outcome::<
                ValModel,
                T,
            >::Failed(e),
        },
        match s8_at(b, at) {
            Scan::Done(v, next) => receive(Type::S8, sub, b, at) == Outcome::<
                ValModel,
                T,
            >::Done(ValModel::S8(v), next),
            Scan::Incomplete => receive(Type::S8, sub, b, at) is Incomplete,
            Scan::Failed(e) => receive(Type::S8, sub, b, at) == Outcome::<
                ValModel,
                T,
            >::Failed(e),
        },
        match s16_at(b, at) {
            Scan::Done(v, next) => receive(Type::S16, sub, b, at) == Outcome::<
                ValModel,
                T,
            >::Done(ValModel::S16(v), next),
            Scan::Incomplete => receive(Type::S16, sub, b, at) is Incomplete,
            Scan::Failed(e) => receive(Type::S16, sub, b, at) == Outcome::<
                ValModel,
                T,
            >::Failed(e),
        },
        match s32_at(b, at) {
            Scan::Done(v, next) => receive(Type::S32, sub, b, at) == Outcome::<
                ValModel,
                T,
            >::Done(ValModel::S32(v), next),
            Scan::Incomplete => receive(Type::S32, sub, b, at) is Incomplete,
            Scan::Failed(e) => receive(Type::S32, sub, b, at) == Outcome::<
                ValModel,
                T,
            >::Failed(e),
        },
        match signed_at(b, at) {
            Scan::Done(v, next) => receive(Type::S64, sub, b, at) == Outcome::<
                ValModel,
                T,
            >::Done(ValModel::S64(v), next),
            Scan::Incomplete => receive(Type::S64, sub, b, at) is Incomplete,
            Scan::Failed(e) => receive(Type::S64, sub, b, at) == Outcome::<
                ValModel,
                T,
            >::Failed(e),
        },
        match float32_at(b, at) {
            Scan::Done(v, next) => receive(Type::Float32, sub, b, at) == Outcome::<
                ValModel,
                T,
            >::Done(ValModel::Float32(v), next),
            Scan::Incomplete => receive(Type::Float32, sub, b, at) is Incomplete,
            Scan::Failed(e) => receive(Type::Float32, sub, b, at) == Outcome::<
                ValModel,
                T,
            >::Failed(e),
        },
        match float64_at(b, at) {
            Scan::Done(v, next) => receive(Type::Float64, sub, b, at) == Outcome::<
                ValModel,
                T,
            >::Done(ValModel::Float64(v), next),
            Scan::Incomplete => receive(Type::Float64, sub, b, at) is Incomplete,
            Scan::Failed(e) => receive(Type::Float64, sub, b, at) == Outcome::<
                ValModel,
                T,
            >::Failed(e),
        },
        match char_at(b, at) {
            Scan::Done(v, next) => receive(Type::Char, sub, b, at) == Outcome::<
                ValModel,
                T,
            >::Done(ValModel::Char(v), next),
            Scan::Incomplete => receive(Type::Char, sub, b, at) is Incomplete,
            Scan::Failed(e) => receive(Type::Char, sub, b, at) == Outcome::<
                ValModel,
                T,
            >::Failed(e),
        },
        match string_at(b, at) {
            Scan::Done(v, next) => receive(Type::String, sub, b, at) == Outcome::<
                ValModel,
                T,
            >::Done(ValModel::String(v), next),
            Scan::Incomplete => receive(Type::String, sub, b, at) is Incomplete,
            Scan::Failed(e) => receive(Type::String, sub, b, at) == Outcome::<
                ValModel,
                T,
            >::Failed(e),
        },
{
}

/// A value of an enum is the index of its name, which has to be one.
pub proof fn enum_by_index<T>(names: Vec<String>, sub: Option<SubModel<T>>, b: Seq<u8>, at: int)
    ensures
        match discriminant_at(b, at) {
            Scan::Done(i, next) => if i < names@.len() {
                receive(Type::Enum(names), sub, b, at) == Outcome::<ValModel, T>::Done(
                    ValModel::Enum(names@[i as int]@),
                    next,
                )
            } else {
                receive(Type::Enum(names), sub, b, at) == Outcome::<ValModel, T>::Failed(
                    ReceiveError::UnknownEnum,
                )
            },
            Scan::Incomplete => receive(Type::Enum(names), sub, b, at) is Incomplete,
            Scan::Failed(e) => receive(Type::Enum(names), sub, b, at) == Outcome::<
                ValModel,
                T,
            >::Failed(e),
        },
{
}

/// Which of the first `n` bits are set.
spec fn flag_positions(v: u64, n: nat) -> Seq<int>
    decreases n,
{
    if n == 0 {
        Seq::empty()
    } else {
        let before = flag_positions(v, (n - 1) as nat);
        if has_bit(v, (n - 1) as u64) {
            before.push(n - 1)
        } else {
            before
        }
    }
}

proof fn lemma_flag_positions(names: Seq<String>, v: u64, n: nat)
    requires
        n <= 64,
        n <= names.len(),
    ensures
        flag_positions(v, n).len() == selected(names, v, n).len(),
        forall|k: int|
            0 <= k < flag_positions(v, n).len() ==> 0 <= (#[trigger] flag_positions(v, n)[k]) < n
                && (v & (1u64 << (flag_positions(v, n)[k] as u64))) != 0 && selected(names, v, n)[k]
                == names[flag_positions(v, n)[k]]@,
        forall|k: int, x: int|
            0 <= k < x < flag_positions(v, n).len() ==> (#[trigger] flag_positions(v, n)[k]) < (
            #[trigger] flag_positions(v, n)[x]),
        forall|i: int|
            0 <= i < n && (v & (1u64 << (i as u64))) != 0 ==> #[trigger] flag_positions(
                v,
                n,
            ).contains(i),
    decreases n,
{
    if n > 0 {
        let before = flag_positions(v, (n - 1) as nat);
        let after = flag_positions(v, n);
        lemma_flag_positions(names, v, (n - 1) as nat);
        assert forall|i: int|
            0 <= i < n && (v & (1u64 << (i as u64))) != 0 implies #[trigger] after.contains(i) by {
            if i < n - 1 {
                assert(before.contains(i));
                let k = choose|k: int| 0 <= k < before.len() && before[k] == i;
                assert(after[k] == i);
            } else {
                assert(after[after.len() - 1] == i);
            }
        }
    }
}

/// Flags are the bits of an integer: the names whose bit is set, in order and each once, of which
/// there are at most 64.
pub proof fn flags_by_bits<T>(
    names: Vec<String>,
    sub: Option<SubModel<T>>,
    b: Seq<u8>,
    at: int,
) -> (set: Seq<int>)
    ensures
        match unsigned_at(b, at) {
            Scan::Done(v, next) => {
                &&& receive(Type::Flags(names), sub, b, at) matches Outcome::Done(flags, end)
                &&& end == next
                &&& flags matches ValModel::Flags(flags)
                &&& flags.len() == set.len()
                &&& forall|k: int|
                    0 <= k < set.len() ==> 0 <= (#[trigger] set[k]) < names@.len() && set[k] < 64
                        && (v & (1u64 << (set[k] as u64))) != 0 && flags[k] == names@[set[k]]@
                &&& forall|k: int, x: int|
                    0 <= k < x < set.len() ==> (#[trigger] set[k]) < (#[trigger] set[x])
                &&& forall|i: int|
                    0 <= i < names@.len() && i < 64 && (v & (1u64 << (i as u64))) != 0
                        ==> #[trigger] set.contains(i)
            },
            Scan::Incomplete => receive(Type::Flags(names), sub, b, at) is Incomplete,
            Scan::Failed(e) => receive(Type::Flags(names), sub, b, at) == Outcome::<
                ValModel,
                T,
            >::Failed(e),
        },
{
    if let Scan::Done(v, _) = unsigned_at(b, at) {
        lemma_flag_positions(names@, v, flag_count(names@));
        flag_positions(v, flag_count(names@))
    } else {
        Seq::empty()
    }
}

/// A resource is for the caller to decode, where it is and with its subscription.
pub proof fn resources_are_handed_on<T>(
    resource: u32,
    sub: Option<SubModel<T>>,
    b: Seq<u8>,
    at: int,
)
    ensures
        receive(Type::Own(resource), sub, b, at) == Outcome::<ValModel, T>::Resource(
            resource,
            at,
            sub,
        ),
        receive(Type::Borrow(resource), sub, b, at) == Outcome::<ValModel, T>::Resource(
            resource,
            at,
            sub,
        ),
{
}

/// An option is a byte that is zero, or one and then the value. Its subscription is of an option,
/// but only a value that is there is held to that.
pub proof fn option_by_tag<T>(some: Box<Type>, sub: Option<SubModel<T>>, b: Seq<u8>, at: int)
    requires
        0 <= at,
    ensures
        ({
            let o = receive(Type::Option(some), sub, b, at);
            if at >= b.len() {
                o is Incomplete
            } else if b[at] == 0 {
                o == Outcome::<ValModel, T>::Done(ValModel::Option(None), at + 1)
            } else if b[at] != 1 {
                o == Outcome::<ValModel, T>::Failed(ReceiveError::InvalidOption)
            } else if sub is Some && !(sub->0 is Option) {
                o == Outcome::<ValModel, T>::Failed(ReceiveError::OptionSubscription)
            } else {
                let inner = match sub {
                    Some(SubModel::Option(inner)) => Some(*inner),
                    _ => None,
                };
                match receive(*some, inner, b, at + 1) {
                    Outcome::Done(v, next) => o == Outcome::<ValModel, T>::Done(
                        ValModel::Option(Some(Box::new(v))),
                        next,
                    ),
                    Outcome::Incomplete => o is Incomplete,
                    Outcome::Resource(ty, next, s) => o == Outcome::<ValModel, T>::Resource(
                        ty,
                        next,
                        s,
                    ),
                    Outcome::Failed(e) => o == Outcome::<ValModel, T>::Failed(e),
                }
            }
        }),
{
}

/// A result is a byte that is zero for what went well and one for what did not, and then the value
/// of that, where it has one. Its subscription is of a result, or nothing is read.
pub proof fn result_by_tag<T>(
    ok: Option<Box<Type>>,
    err: Option<Box<Type>>,
    sub: Option<SubModel<T>>,
    b: Seq<u8>,
    at: int,
)
    requires
        0 <= at,
    ensures
        ({
            let o = receive(Type::Result { ok, err }, sub, b, at);
            if sub is Some && !(sub->0 is Result) {
                o == Outcome::<ValModel, T>::Failed(ReceiveError::ResultSubscription)
            } else if at >= b.len() {
                o is Incomplete
            } else if b[at] > 1 {
                o == Outcome::<ValModel, T>::Failed(ReceiveError::InvalidResult)
            } else {
                let ty = if b[at] == 0 {
                    ok
                } else {
                    err
                };
                let boxed = match sub {
                    Some(SubModel::Result { ok: sub_ok, err: sub_err }) => if b[at] == 0 {
                        sub_ok
                    } else {
                        sub_err
                    },
                    _ => None,
                };
                let inner = match boxed {
                    Some(inner) => Some(*inner),
                    None => None,
                };
                match ty {
                    None => o == Outcome::<ValModel, T>::Done(
                        ValModel::Result(
                            if b[at] == 0 {
                                Ok(None)
                            } else {
                                Err(None)
                            },
                        ),
                        at + 1,
                    ),
                    Some(ty) => match receive(*ty, inner, b, at + 1) {
                        Outcome::Done(v, next) => o == Outcome::<ValModel, T>::Done(
                            ValModel::Result(
                                if b[at] == 0 {
                                    Ok(Some(Box::new(v)))
                                } else {
                                    Err(Some(Box::new(v)))
                                },
                            ),
                            next,
                        ),
                        Outcome::Incomplete => o is Incomplete,
                        Outcome::Resource(ty, next, s) => o == Outcome::<ValModel, T>::Resource(
                            ty,
                            next,
                            s,
                        ),
                        Outcome::Failed(e) => o == Outcome::<ValModel, T>::Failed(e),
                    },
                }
            }
        }),
{
}

/// A variant is the index of its case, which has to be one, and then the value of that, where the
/// case has one. Its subscription is of a variant, and has a part for each case.
pub proof fn variant_by_case<T>(cases: Vec<Case>, sub: Option<SubModel<T>>, b: Seq<u8>, at: int)
    ensures
        ({
            let o = receive(Type::Variant(cases), sub, b, at);
            match discriminant_at(b, at) {
                Scan::Done(i, start) => if i >= cases@.len() {
                    o == Outcome::<ValModel, T>::Failed(ReceiveError::UnknownVariant)
                } else if sub is Some && !(sub->0 is Variant) {
                    o == Outcome::<ValModel, T>::Failed(ReceiveError::VariantSubscription)
                } else {
                    let name = cases@[i as int].name@;
                    let inner = match sub {
                        Some(SubModel::Variant(subs)) => if i < subs.len() {
                            subs[i as int]
                        } else {
                            None
                        },
                        _ => None,
                    };
                    match cases@[i as int].ty {
                        None => o == Outcome::<ValModel, T>::Done(
                            ValModel::Variant { name, value: None },
                            start,
                        ),
                        Some(ty) => match receive(ty, inner, b, start) {
                            Outcome::Done(v, next) => o == Outcome::<ValModel, T>::Done(
                                ValModel::Variant { name, value: Some(Box::new(v)) },
                                next,
                            ),
                            Outcome::Incomplete => o is Incomplete,
                            Outcome::Resource(ty, next, s) => o == Outcome::<ValModel, T>::Resource(
                                ty,
                                next,
                                s,
                            ),
                            Outcome::Failed(e) => o == Outcome::<ValModel, T>::Failed(e),
                        },
                    }
                },
                Scan::Incomplete => o is Incomplete,
                Scan::Failed(e) => o == Outcome::<ValModel, T>::Failed(e),
            }
        }),
{
}

proof fn lemma_element_ends<T>(
    parent: Type,
    subs: Option<Seq<Option<SubModel<T>>>>,
    b: Seq<u8>,
    at: int,
    n: nat,
) -> (ends: Seq<int>)
    requires
        forall|i: int| 0 <= i < n ==> #[trigger] parent.has_element(i),
    ensures
        1 <= ends.len() <= n + 1,
        ends[0] == at,
        forall|i: int|
            0 <= i < ends.len() - 1 ==> (receive(
                parent.element(i),
                sub_at(subs, i),
                b,
                #[trigger] ends[i],
            ) matches Outcome::Done(_, next) && next == ends[i + 1]),
        ends.len() == n + 1 ==> {
            &&& elements(parent, subs, b, at, n) matches Outcome::Done(vs, next)
            &&& next == ends[n as int]
            &&& vs.len() == n
            &&& forall|i: int|
                0 <= i < n ==> receive(
                    parent.element(i),
                    sub_at(subs, i),
                    b,
                    #[trigger] ends[i],
                ) == Outcome::<ValModel, T>::Done(vs[i], ends[i + 1])
        },
        ends.len() <= n ==> match receive(
            parent.element(ends.len() - 1),
            sub_at(subs, ends.len() - 1),
            b,
            ends.last(),
        ) {
            Outcome::Done(_, _) => false,
            Outcome::Incomplete => elements(parent, subs, b, at, n) is Incomplete,
            Outcome::Resource(ty, next, s) => elements(parent, subs, b, at, n) == Outcome::<
                Seq<ValModel>,
                T,
            >::Resource(ty, next, s),
            Outcome::Failed(e) => elements(parent, subs, b, at, n) == Outcome::<
                Seq<ValModel>,
                T,
            >::Failed(e),
        },
    decreases n,
{
    if n == 0 {
        seq![at]
    } else {
        let m = (n - 1) as nat;
        let ends = lemma_element_ends(parent, subs, b, at, m);
        assert(parent.has_element(n - 1));
        if ends.len() == n {
            match receive(parent.element(n - 1), sub_at(subs, n - 1), b, ends.last()) {
                Outcome::Done(v, next) => {
                    let more = ends.push(next);
                    let vs = elements(parent, subs, b, at, m)->Done_0;
                    assert(elements(parent, subs, b, at, n) == Outcome::<Seq<ValModel>, T>::Done(
                        vs.push(v),
                        next,
                    ));
                    assert forall|i: int| 0 <= i < n implies receive(
                        parent.element(i),
                        sub_at(subs, i),
                        b,
                        #[trigger] more[i],
                    ) == Outcome::<ValModel, T>::Done(vs.push(v)[i], more[i + 1]) by {
                        if i < m {
                            assert(ends[i] == more[i]);
                        }
                    }
                    more
                },
                _ => ends,
            }
        } else {
            ends
        }
    }
}

/// A record is its fields one after the other, as far as they can be decoded; what stops one of
/// them stops the record. Its subscription is of a record, and has a part for each field.
pub proof fn record_by_fields<T>(
    fields: Vec<Field>,
    sub: Option<SubModel<T>>,
    b: Seq<u8>,
    at: int,
) -> (ends: Seq<int>)
    ensures
        ({
            let o = receive(Type::Record(fields), sub, b, at);
            let n = fields@.len();
            let part = |i: int|
                receive(
                    fields@[i].ty,
                    match sub {
                        Some(SubModel::Record(subs)) => if i < subs.len() {
                            subs[i]
                        } else {
                            None
                        },
                        _ => None,
                    },
                    b,
                    ends[i],
                );
            if sub is Some && !(sub->0 is Record) {
                o == Outcome::<ValModel, T>::Failed(ReceiveError::RecordSubscription)
            } else {
                &&& 1 <= ends.len() <= n + 1
                &&& ends[0] == at
                &&& forall|i: int|
                    0 <= i < ends.len() - 1 ==> (#[trigger] part(i) matches Outcome::Done(_, next)
                        && next == ends[i + 1])
                &&& ends.len() == n + 1 ==> {
                    &&& o matches Outcome::Done(v, next)
                    &&& next == ends.last()
                    &&& v matches ValModel::Record(vs)
                    &&& vs.len() == n
                    &&& forall|i: int|
                        0 <= i < n ==> #[trigger] part(i) == Outcome::<ValModel, T>::Done(
                            vs[i].1,
                            ends[i + 1],
                        ) && vs[i].0 == fields@[i].name@
                }
                &&& ends.len() <= n ==> match part(ends.len() - 1) {
                    Outcome::Done(_, _) => false,
                    Outcome::Incomplete => o is Incomplete,
                    Outcome::Resource(ty, next, s) => o == Outcome::<ValModel, T>::Resource(
                        ty,
                        next,
                        s,
                    ),
                    Outcome::Failed(e) => o == Outcome::<ValModel, T>::Failed(e),
                }
            }
        }),
{
    let ty = Type::Record(fields);
    let subs = match sub {
        Some(SubModel::Record(subs)) => Some(subs),
        _ => None,
    };
    assert(forall|i: int| 0 <= i < fields@.len() ==> #[trigger] ty.has_element(i));
    assert(forall|i: int| #[trigger] ty.element(i) == fields@[i].ty);
    lemma_element_ends(ty, subs, b, at, fields@.len())
}

/// A tuple is its elements one after the other, as far as they can be decoded; what stops one of
/// them stops the tuple. Its subscription is of a tuple, and has a part for each element.
pub proof fn tuple_by_elements<T>(
    types: Vec<Type>,
    sub: Option<SubModel<T>>,
    b: Seq<u8>,
    at: int,
) -> (ends: Seq<int>)
    ensures
        ({
            let o = receive(Type::Tuple(types), sub, b, at);
            let n = types@.len();
            let part = |i: int|
                receive(
                    types@[i],
                    match sub {
                        Some(SubModel::Tuple(subs)) => if i < subs.len() {
                            subs[i]
                        } else {
                            None
                        },
                        _ => None,
                    },
                    b,
                    ends[i],
                );
            if sub is Some && !(sub->0 is Tuple) {
                o == Outcome::<ValModel, T>::Failed(ReceiveError::TupleSubscription)
            } else {
                &&& 1 <= ends.len() <= n + 1
                &&& ends[0] == at
                &&& forall|i: int|
                    0 <= i < ends.len() - 1 ==> (#[trigger] part(i) matches Outcome::Done(_, next)
                        && next == ends[i + 1])
                &&& ends.len() == n + 1 ==> {
                    &&& o matches Outcome::Done(v, next)
                    &&& next == ends.last()
                    &&& v matches ValModel::Tuple(vs)
                    &&& vs.len() == n
                    &&& forall|i: int|
                        0 <= i < n ==> #[trigger] part(i) == Outcome::<ValModel, T>::Done(
                            vs[i],
                            ends[i + 1],
                        )
                }
                &&& ends.len() <= n ==> match part(ends.len() - 1) {
                    Outcome::Done(_, _) => false,
                    Outcome::Incomplete => o is Incomplete,
                    Outcome::Resource(ty, next, s) => o == Outcome::<ValModel, T>::Resource(
                        ty,
                        next,
                        s,
                    ),
                    Outcome::Failed(e) => o == Outcome::<ValModel, T>::Failed(e),
                }
            }
        }),
{
    let ty = Type::Tuple(types);
    let subs = match sub {
        Some(SubModel::Tuple(subs)) => Some(subs),
        _ => None,
    };
    assert(forall|i: int| 0 <= i < types@.len() ==> #[trigger] ty.has_element(i));
    assert(forall|i: int| #[trigger] ty.element(i) == types@[i]);
    lemma_element_ends(ty, subs, b, at, types@.len())
}

/// A list is the number of its elements, and then those one after the other, as far as they can be
/// decoded; what stops one of them stops the list. It takes no subscription.
pub proof fn list_by_elements<T>(element: Box<Type>, b: Seq<u8>, at: int) -> (ends: Seq<int>)
    ensures
        ({
            let o = receive::<T>(Type::List(element), None, b, at);
            match list_header_at(b, at) {
                Scan::Done(n, start) => {
                    &&& 1 <= ends.len() <= n + 1
                    &&& ends[0] == start
                    &&& forall|i: int|
                        0 <= i < ends.len() - 1 ==> (receive::<T>(
                            *element,
                            None,
                            b,
                            #[trigger] ends[i],
                        ) matches Outcome::Done(_, next) && next == ends[i + 1])
                    &&& ends.len() == n + 1 ==> {
                        &&& o matches Outcome::Done(v, next)
                        &&& next == ends.last()
                        &&& v matches ValModel::List(vs)
                        &&& vs.len() == n
                        &&& forall|i: int|
                            0 <= i < n ==> receive::<T>(*element, None, b, #[trigger] ends[i])
                                == Outcome::<ValModel, T>::Done(vs[i], ends[i + 1])
                    }
                    &&& ends.len() <= n ==> match receive::<T>(*element, None, b, ends.last()) {
                        Outcome::Done(_, _) => false,
                        Outcome::Incomplete => o is Incomplete,
                        Outcome::Resource(ty, next, s) => o == Outcome::<ValModel, T>::Resource(
                            ty,
                            next,
                            s,
                        ),
                        Outcome::Failed(e) => o == Outcome::<ValModel, T>::Failed(e),
                    }
                },
                Scan::Incomplete => o is Incomplete,
                Scan::Failed(e) => o == Outcome::<ValModel, T>::Failed(e),
            }
        }),
{
    let ty = Type::List(element);
    match list_header_at(b, at) {
        Scan::Done(n, start) => {
            assert(forall|i: int| 0 <= i < n ==> #[trigger] ty.has_element(i));
            let ends = lemma_element_ends::<T>(ty, None, b, start, n as nat);
            assert(forall|i: int| #[trigger] ty.element(i) == *element);
            assert(forall|i: int| #[trigger] sub_at::<T>(None, i) is None);
            ends
        },
        _ => Seq::empty(),
    }
}

/// No subscription of a list can be split among its elements.
pub proof fn list_subscriptions_are_refused<T>(
    element: Box<Type>,
    sub: SubModel<T>,
    b: Seq<u8>,
    at: int,
)
    ensures
        receive(Type::List(element), Some(sub), b, at) == Outcome::<ValModel, T>::Failed(
            match sub {
                SubModel::List(nested) => match *nested {
                    SubModel::List(_) => ReceiveError::DemultiplexList,
                    SubModel::Stream { .. } => ReceiveError::DemultiplexStream,
                    _ => ReceiveError::DemultiplexOther,
                },
                _ => ReceiveError::ListSubscription,
            },
        ),
{
}

/// What is decoded is what is said of the payload, the type and the subscription.
pub proof fn received_content<'a, T>(
    payload: &[u8],
    at: usize,
    sub: Option<&'a AsyncSubscription<T>>,
    ty: &Type,
    r: Received<'a, Val, T>,
)
    requires
        call_ensures(receive_value::<T>, (payload, at, sub, ty), r),
    ensures
        ({
            let content = match sub {
                Some(sub) => Some(sub@),
                None => None,
            };
            match r {
                Received::Done(v, next) => receive(*ty, content, payload@, at as int) == Outcome::<
                    ValModel,
                    T,
                >::Done(v@, next as int),
                Received::Incomplete => receive(*ty, content, payload@, at as int) is Incomplete,
                Received::Resource(resource, next, sub) => receive(
                    *ty,
                    content,
                    payload@,
                    at as int,
                ) == Outcome::<ValModel, T>::Resource(
                    resource,
                    next as int,
                    match sub {
                        Some(sub) => Some(sub@),
                        None => None,
                    },
                ),
                Received::Failed(e) => receive(*ty, content, payload@, at as int) == Outcome::<
                    ValModel,
                    T,
                >::Failed(e),
            }
        }),
{
}

} // verus!
