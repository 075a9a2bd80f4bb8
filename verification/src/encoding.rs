//! The payloads that values come from.
//!
//! Decoding takes a payload to a value. Here each value is given the payload that a peer sends for
//! it, and decoding is shown to take that payload back to the value.
use vstd::prelude::*;
use vstd::utf8::{encode_utf8, encode_utf8_decode_utf8, encode_utf8_valid_utf8};

use crate::leb128::{
    holds_at, lemma_holds_at_parts, signed_bytes, signed_round_trip, unsigned_bytes,
    unsigned_round_trip,
};
use crate::primitive::little_endian;
use crate::receive::{elements, flag_count, has_bit, named, plain_at, receive, selected, Outcome};
use crate::scan::Scan;
use crate::typing::{flags_at, is_case, received_is_typed, typed};
use crate::value::{Case, Type, ValModel};

verus! {

/// The bytes of a number, least significant first.
pub open spec fn little_endian_bytes(v: nat, n: nat) -> Seq<u8>
    decreases n,
{
    if n == 0 {
        Seq::empty()
    } else {
        seq![(v % 256) as u8] + little_endian_bytes(v / 256, (n - 1) as nat)
    }
}

/// The flags as bits.
pub open spec fn flag_bits(names: Seq<String>, flags: Seq<Seq<char>>) -> u64 {
    choose|bits: u64| selected(names, bits, flag_count(names)) == flags
}

/// The index of a case.
pub open spec fn case_index(
    cases: Seq<Case>,
    name: Seq<char>,
    value: Option<Box<ValModel>>,
) -> int {
    choose|i: int| is_case(cases, i, name, value)
}

/// The index of a name.
pub open spec fn name_index(names: Seq<String>, name: Seq<char>) -> int {
    choose|i: int| 0 <= i < names.len() && i <= u32::MAX && (#[trigger] names[i])@ == name
}

/// The values of a record's fields.
pub open spec fn field_values(fields: Seq<(Seq<char>, ValModel)>) -> Seq<ValModel> {
    Seq::new(fields.len(), |i: int| fields[i].1)
}

/// The payload of a value of a plain type.
pub open spec fn plain_bytes(ty: Type, v: ValModel) -> Seq<u8> {
    match v {
        ValModel::Bool(v) => seq![
            if v {
                1u8
            } else {
                0u8
            },
        ],
        ValModel::U8(v) => seq![v],
        ValModel::U16(v) => unsigned_bytes(v as nat),
        ValModel::U32(v) => unsigned_bytes(v as nat),
        ValModel::U64(v) => unsigned_bytes(v as nat),
        ValModel::S8(v) => seq![
            if v < 0 {
                (v + 256) as u8
            } else {
                v as u8
            },
        ],
        ValModel::S16(v) => signed_bytes(v as int),
        ValModel::S32(v) => signed_bytes(v as int),
        ValModel::S64(v) => signed_bytes(v as int),
        ValModel::Float32(bits) => little_endian_bytes(bits as nat, 4),
        ValModel::Float64(bits) => little_endian_bytes(bits as nat, 8),
        ValModel::Char(v) => unsigned_bytes(v as nat),
        ValModel::String(text) => unsigned_bytes(encode_utf8(text).len()) + encode_utf8(text),
        ValModel::Enum(name) => match ty {
            Type::Enum(names) => unsigned_bytes(name_index(names@, name) as nat),
            _ => Seq::empty(),
        },
        ValModel::Flags(flags) => match ty {
            Type::Flags(names) => unsigned_bytes(flag_bits(names@, flags) as nat),
            _ => Seq::empty(),
        },
        _ => Seq::empty(),
    }
}

/// The payloads of the first `n` elements of a value of type `parent`, one after the other.
pub open spec fn element_bytes(parent: Type, vs: Seq<ValModel>, n: nat) -> Seq<u8>
    decreases parent, 0nat, n,
{
    if n == 0 {
        Seq::empty()
    } else {
        element_bytes(parent, vs, (n - 1) as nat) + match parent {
            Type::List(ty) => encoding(*ty, vs[n - 1]),
            Type::Record(fields) => if n <= fields@.len() {
                encoding(fields@[n - 1].ty, vs[n - 1])
            } else {
                Seq::empty()
            },
            Type::Tuple(types) => if n <= types@.len() {
                encoding(types@[n - 1], vs[n - 1])
            } else {
                Seq::empty()
            },
            _ => Seq::empty(),
        }
    }
}

/// The payload of a value of type `ty`.
pub open spec fn encoding(ty: Type, v: ValModel) -> Seq<u8>
    decreases ty, 1nat, 0nat,
{
    match ty {
        Type::List(_) => {
            let vs = v->List_0;
            unsigned_bytes(vs.len()) + element_bytes(ty, vs, vs.len())
        },
        Type::Record(fields) => element_bytes(ty, field_values(v->Record_0), fields@.len()),
        Type::Tuple(types) => element_bytes(ty, v->Tuple_0, types@.len()),
        Type::Variant(cases) => {
            let value = v->Variant_value;
            let i = case_index(cases@, v->Variant_name, value);
            unsigned_bytes(i as nat) + if 0 <= i < cases@.len() && cases@[i].ty is Some && value
                is Some {
                encoding(cases@[i].ty->0, *value->0)
            } else {
                Seq::empty()
            }
        },
        Type::Option(some) => match v->Option_0 {
            Some(value) => seq![1u8] + encoding(*some, *value),
            None => seq![0u8],
        },
        Type::Result { ok, err } => match v->Result_0 {
            Ok(value) => seq![0u8] + if ok is Some && value is Some {
                encoding(*ok->0, *value->0)
            } else {
                Seq::empty()
            },
            Err(value) => seq![1u8] + if err is Some && value is Some {
                encoding(*err->0, *value->0)
            } else {
                Seq::empty()
            },
        },
        _ => plain_bytes(ty, v),
    }
}

/// What is left of a number of bytes after some more have come.
pub open spec fn still(bytes: nat, more: nat) -> nat {
    if bytes <= more {
        0
    } else {
        (bytes - more) as nat
    }
}

/// The larger of two numbers.
pub open spec fn larger(a: nat, b: nat) -> nat {
    if a <= b {
        b
    } else {
        a
    }
}

/// The number of bytes that have to follow the first `n` elements before they are decoded.
pub open spec fn element_slack(parent: Type, vs: Seq<ValModel>, n: nat) -> nat
    decreases parent, 0nat, n,
{
    if n == 0 {
        0
    } else {
        let before = element_slack(parent, vs, (n - 1) as nat);
        let bytes = element_bytes(parent, vs, n).len() - element_bytes(
            parent,
            vs,
            (n - 1) as nat,
        ).len();
        larger(
            still(before, bytes as nat),
            match parent {
                Type::List(ty) => slack(*ty, vs[n - 1]),
                Type::Record(fields) => if n <= fields@.len() {
                    slack(fields@[n - 1].ty, vs[n - 1])
                } else {
                    0
                },
                Type::Tuple(types) => if n <= types@.len() {
                    slack(types@[n - 1], vs[n - 1])
                } else {
                    0
                },
                _ => 0,
            },
        )
    }
}

/// The number of bytes that have to follow the payload of a value before it is decoded.
///
/// A single precision number takes four bytes, and is read once eight are there.
pub open spec fn slack(ty: Type, v: ValModel) -> nat
    decreases ty, 1nat, 0nat,
{
    match ty {
        Type::Float32 => 4,
        Type::List(_) => element_slack(ty, v->List_0, v->List_0.len()),
        Type::Record(fields) => element_slack(ty, field_values(v->Record_0), fields@.len()),
        Type::Tuple(types) => element_slack(ty, v->Tuple_0, types@.len()),
        Type::Variant(cases) => {
            let value = v->Variant_value;
            let i = case_index(cases@, v->Variant_name, value);
            if 0 <= i < cases@.len() && cases@[i].ty is Some && value is Some {
                slack(cases@[i].ty->0, *value->0)
            } else {
                0
            }
        },
        Type::Option(some) => match v->Option_0 {
            Some(value) => slack(*some, *value),
            None => 0,
        },
        Type::Result { ok, err } => match v->Result_0 {
            Ok(value) => if ok is Some && value is Some {
                slack(*ok->0, *value->0)
            } else {
                0
            },
            Err(value) => if err is Some && value is Some {
                slack(*err->0, *value->0)
            } else {
                0
            },
        },
        _ => 0,
    }
}

proof fn lemma_little_endian(v: nat, n: nat, b: Seq<u8>, at: int)
    requires
        holds_at(b, at, little_endian_bytes(v, n)),
        n == 1 ==> v < 0x100,
        n == 2 ==> v < 0x1_0000,
        n == 3 ==> v < 0x100_0000,
        n == 4 ==> v < 0x1_0000_0000,
        n == 5 ==> v < 0x100_0000_0000,
        n == 6 ==> v < 0x1_0000_0000_0000,
        n == 7 ==> v < 0x100_0000_0000_0000,
        n == 8 ==> v < 0x1_0000_0000_0000_0000,
        n == 0 ==> v == 0,
        n <= 8,
    ensures
        little_endian(b, at, n) == v,
        little_endian_bytes(v, n).len() == n,
    decreases n,
{
    if n > 0 {
        assert(b[at + 0] == little_endian_bytes(v, n)[0]);
        lemma_holds_at_parts(
            b,
            at,
            seq![(v % 256) as u8],
            little_endian_bytes(v / 256, (n - 1) as nat),
        );
        lemma_little_endian(v / 256, (n - 1) as nat, b, at + 1);
    }
}

proof fn lemma_bits(bits: u64, k: u64, i: u64)
    requires
        k < 64,
        i < k,
        bits < (1u64 << k),
    ensures
        !has_bit(bits, k),
        has_bit(bits | (1u64 << k), k),
        has_bit(bits | (1u64 << k), i) == has_bit(bits, i),
{
    assert(bits & (1u64 << k) == 0) by (bit_vector)
        requires
            k < 64,
            bits < (1u64 << k),
    ;
    assert((bits | (1u64 << k)) & (1u64 << k) != 0) by (bit_vector)
        requires
            k < 64,
    ;
    assert(((bits | (1u64 << k)) & (1u64 << i) != 0) == (bits & (1u64 << i) != 0)) by (bit_vector)
        requires
            k < 64,
            i < k,
    ;
}

proof fn lemma_selected_agree(names: Seq<String>, a: u64, b: u64, n: nat)
    requires
        n <= 64,
        forall|i: u64| i < n ==> #[trigger] has_bit(a, i) == has_bit(b, i),
    ensures
        selected(names, a, n) == selected(names, b, n),
    decreases n,
{
    if n > 0 {
        lemma_selected_agree(names, a, b, (n - 1) as nat);
        assert(has_bit(a, (n - 1) as u64) == has_bit(b, (n - 1) as u64));
    }
}

/// There are bits for all flags that a type has.
proof fn lemma_flag_bits(
    names: Seq<String>,
    flags: Seq<Seq<char>>,
    index: spec_fn(int) -> int,
    n: nat,
) -> (bits: u64)
    requires
        n <= 64,
        forall|i: int|
            0 <= i < flags.len() ==> 0 <= #[trigger] index(i) < n && flags[i] == names[index(i)]@,
        forall|i: int, j: int|
            0 <= i < j < flags.len() ==> #[trigger] index(i) < #[trigger] index(j),
    ensures
        selected(names, bits, n) == flags,
        n < 64 ==> bits < (1u64 << (n as u64)),
    decreases n,
{
    if n == 0 {
        if flags.len() > 0 {
            assert(0 <= index(0) < n);
        }
        assert(0u64 < (1u64 << 0u64)) by (bit_vector);
        assert(flags =~= Seq::empty());
        0
    } else {
        let k: u64 = (n - 1) as u64;
        let last = flags.len() - 1;
        if flags.len() > 0 && index(last) == n - 1 {
            let rest = flags.drop_last();
            assert forall|i: int| 0 <= i < rest.len() implies 0 <= #[trigger] index(i) < n - 1
                && rest[i] == names[index(i)]@ by {
                assert(index(i) < index(last));
                assert(flags[i] == names[index(i)]@);
            }
            let before = lemma_flag_bits(names, rest, index, (n - 1) as nat);
            let bits = before | (1u64 << k);
            assert(has_bit(bits, k)) by (bit_vector)
                requires
                    k < 64,
                    bits == before | (1u64 << k),
            ;
            assert forall|i: u64| i < n - 1 implies #[trigger] has_bit(bits, i) == has_bit(
                before,
                i,
            ) by {
                lemma_bits(before, k, i);
            }
            lemma_selected_agree(names, bits, before, (n - 1) as nat);
            if n < 64 {
                let end: u64 = n as u64;
                assert(bits < (1u64 << end)) by (bit_vector)
                    requires
                        k < 63,
                        end == k + 1,
                        before < (1u64 << k),
                        bits == before | (1u64 << k),
                ;
            }
            assert(rest.push(flags[last]) =~= flags);
            assert(flags[last] == names[index(last)]@);
            bits
        } else {
            assert forall|i: int| 0 <= i < flags.len() implies 0 <= #[trigger] index(i) < n - 1
                && flags[i] == names[index(i)]@ by {
                assert(index(last) < n);
                if i < last {
                    assert(index(i) < index(last));
                }
            }
            let bits = lemma_flag_bits(names, flags, index, (n - 1) as nat);
            assert(!has_bit(bits, k)) by (bit_vector)
                requires
                    k < 64,
                    bits < (1u64 << k),
            ;
            if n < 64 {
                let end: u64 = n as u64;
                assert(bits < (1u64 << end)) by (bit_vector)
                    requires
                        k < 63,
                        end == k + 1,
                        bits < (1u64 << k),
                ;
            }
            bits
        }
    }
}

/// The payload of a value of a plain type is decoded to that value.
proof fn lemma_plain_received(ty: Type, v: ValModel, b: Seq<u8>, at: int)
    requires
        ty.is_plain(),
        typed(v, ty),
        holds_at(b, at, plain_bytes(ty, v)),
        at + plain_bytes(ty, v).len() + slack(ty, v) <= b.len(),
    ensures
        plain_at(ty, b, at) == Scan::Done(v, at + plain_bytes(ty, v).len()),
{
    match v {
        ValModel::Bool(_) | ValModel::U8(_) | ValModel::S8(_) => {
            assert(b[at + 0] == plain_bytes(ty, v)[0]);
        },
        ValModel::U16(v) => unsigned_round_trip(v as u64, b, at),
        ValModel::U32(v) => unsigned_round_trip(v as u64, b, at),
        ValModel::U64(v) => unsigned_round_trip(v, b, at),
        ValModel::S16(v) => signed_round_trip(v as i64, b, at),
        ValModel::S32(v) => signed_round_trip(v as i64, b, at),
        ValModel::S64(v) => signed_round_trip(v, b, at),
        ValModel::Float32(bits) => lemma_little_endian(bits as nat, 4, b, at),
        ValModel::Float64(bits) => lemma_little_endian(bits as nat, 8, b, at),
        ValModel::Char(c) => {
            unsigned_round_trip(c as u64, b, at);
            assert((c as u64) as char == c);
        },
        ValModel::String(text) => {
            let bytes = encode_utf8(text);
            let len = unsigned_bytes(bytes.len());
            lemma_holds_at_parts(b, at, len, bytes);
            unsigned_round_trip(bytes.len() as u64, b, at);
            encode_utf8_valid_utf8(text);
            encode_utf8_decode_utf8(text);
            let start = at + len.len();
            assert(b.subrange(start, start + bytes.len()) =~= bytes) by {
                assert forall|i: int| 0 <= i < bytes.len() implies b[start + i] == bytes[i] by {}
            }
        },
        ValModel::Enum(name) => {
            if let Type::Enum(names) = ty {
                let i = name_index(names@, name);
                assert(0 <= i < names@.len() && i <= u32::MAX && names@[i]@ == name);
                unsigned_round_trip(i as u64, b, at);
            }
        },
        ValModel::Flags(flags) => {
            if let Type::Flags(names) = ty {
                let index = choose|index: spec_fn(int) -> int|
                    #[trigger] flags_at(flags, names@, index);
                let found = lemma_flag_bits(names@, flags, index, flag_count(names@));
                assert(selected(names@, found, flag_count(names@)) == flags);
                let bits = flag_bits(names@, flags);
                assert(selected(names@, bits, flag_count(names@)) == flags);
                unsigned_round_trip(bits, b, at);
            }
        },
        _ => {},
    }
}

proof fn lemma_elements_received<T>(
    parent: Type,
    vs: Seq<ValModel>,
    b: Seq<u8>,
    at: int,
    n: nat,
)
    requires
        n <= vs.len(),
        forall|i: int|
            0 <= i < n ==> parent.has_element(i) && typed(#[trigger] vs[i], parent.element(i)),
        holds_at(b, at, element_bytes(parent, vs, n)),
        at + element_bytes(parent, vs, n).len() + element_slack(parent, vs, n) <= b.len(),
    ensures
        elements::<T>(parent, None, b, at, n) == Outcome::<Seq<ValModel>, T>::Done(
            vs.take(n as int),
            at + element_bytes(parent, vs, n).len(),
        ),
    decreases parent, 0nat, n,
{
    if n == 0 {
        assert(vs.take(0) =~= Seq::empty());
    } else {
        let before = element_bytes(parent, vs, (n - 1) as nat);
        assert(parent.has_element(n - 1) && typed(vs[n - 1], parent.element(n - 1)));
        let last = encoding(parent.element(n - 1), vs[n - 1]);
        assert(element_bytes(parent, vs, n) == before + last);
        lemma_holds_at_parts(b, at, before, last);
        lemma_elements_received::<T>(parent, vs, b, at, (n - 1) as nat);
        match parent {
            Type::List(ty) => encoded_value_is_received::<T>(*ty, vs[n - 1], b, at + before.len()),
            Type::Record(fields) => encoded_value_is_received::<T>(
                fields@[n - 1].ty,
                vs[n - 1],
                b,
                at + before.len(),
            ),
            Type::Tuple(types) => encoded_value_is_received::<T>(
                types@[n - 1],
                vs[n - 1],
                b,
                at + before.len(),
            ),
            _ => {},
        }
        assert(vs.take(n as int) =~= vs.take(n - 1).push(vs[n - 1]));
    }
}

/// The payload of a value, anywhere in a buffer that holds enough after it, is decoded to that
/// value, up to the end of the payload.
pub proof fn encoded_value_is_received<T>(ty: Type, v: ValModel, b: Seq<u8>, at: int)
    requires
        typed(v, ty),
        holds_at(b, at, encoding(ty, v)),
        at + encoding(ty, v).len() + slack(ty, v) <= b.len(),
    ensures
        receive::<T>(ty, None, b, at) == Outcome::<ValModel, T>::Done(
            v,
            at + encoding(ty, v).len(),
        ),
    decreases ty, 1nat, 0nat,
{
    match ty {
        Type::List(_) => {
            let vs = v->List_0;
            let len = unsigned_bytes(vs.len());
            lemma_holds_at_parts(b, at, len, element_bytes(ty, vs, vs.len()));
            unsigned_round_trip(vs.len() as u64, b, at);
            lemma_elements_received::<T>(ty, vs, b, at + len.len(), vs.len());
            assert(vs.take(vs.len() as int) =~= vs);
        },
        Type::Record(fields) => {
            let vs = field_values(v->Record_0);
            lemma_elements_received::<T>(ty, vs, b, at, fields@.len());
            assert(vs.take(fields@.len() as int) =~= vs);
            assert(named(fields@, vs) =~= v->Record_0);
        },
        Type::Tuple(types) => {
            let vs = v->Tuple_0;
            lemma_elements_received::<T>(ty, vs, b, at, types@.len());
            assert(vs.take(types@.len() as int) =~= vs);
        },
        Type::Variant(cases) => {
            let name = v->Variant_name;
            let value = v->Variant_value;
            let i = case_index(cases@, name, value);
            assert(is_case(cases@, i, name, value)) by {
                let found = choose|i: int|
                    0 <= i < cases@.len() && i <= u32::MAX && (#[trigger] cases@[i]).name@ == name
                        && match value {
                        Some(value) => cases@[i].ty is Some && typed(*value, cases@[i].ty->0),
                        None => cases@[i].ty is None,
                    };
                assert(is_case(cases@, found, name, value));
            }
            let index = unsigned_bytes(i as nat);
            if let Some(payload) = value {
                lemma_holds_at_parts(b, at, index, encoding(cases@[i].ty->0, *payload));
                encoded_value_is_received::<T>(
                    cases@[i].ty->0,
                    *payload,
                    b,
                    at + index.len(),
                );
            } else {
                assert(index + Seq::<u8>::empty() =~= index);
            }
            unsigned_round_trip(i as u64, b, at);
        },
        Type::Option(some) => {
            if let Some(payload) = v->Option_0 {
                lemma_holds_at_parts(b, at, seq![1u8], encoding(*some, *payload));
                assert(b[at + 0] == 1);
                encoded_value_is_received::<T>(*some, *payload, b, at + 1);
            } else {
                assert(b[at + 0] == 0);
            }
        },
        Type::Result { ok, err } => {
            match v->Result_0 {
                Ok(value) => {
                    if let Some(payload) = value {
                        lemma_holds_at_parts(b, at, seq![0u8], encoding(*ok->0, *payload));
                        encoded_value_is_received::<T>(*ok->0, *payload, b, at + 1);
                    } else {
                        assert(seq![0u8] + Seq::<u8>::empty() =~= seq![0u8]);
                    }
                    assert(b[at + 0] == encoding(ty, v)[0]);
                },
                Err(value) => {
                    if let Some(payload) = value {
                        lemma_holds_at_parts(b, at, seq![1u8], encoding(*err->0, *payload));
                        encoded_value_is_received::<T>(*err->0, *payload, b, at + 1);
                    } else {
                        assert(seq![1u8] + Seq::<u8>::empty() =~= seq![1u8]);
                    }
                    assert(b[at + 0] == encoding(ty, v)[0]);
                },
            }
        },
        _ => lemma_plain_received(ty, v, b, at),
    }
}

/// A value is of a type if and only if some payload is decoded to it.
pub proof fn typed_if_receivable<T>(ty: Type, v: ValModel)
    ensures
        typed(v, ty) <==> exists|b: Seq<u8>|
            (#[trigger] receive::<T>(ty, None, b, 0)) matches Outcome::Done(w, _) && w == v,
{
    if typed(v, ty) {
        let bytes = encoding(ty, v);
        let b = bytes + Seq::new(slack(ty, v), |i: int| 0u8);
        assert(holds_at(b, 0, bytes)) by {
            assert forall|i: int| 0 <= i < bytes.len() implies #[trigger] b[0 + i] == bytes[i] by {}
        }
        encoded_value_is_received::<T>(ty, v, b, 0);
        assert(receive::<T>(ty, None, b, 0) matches Outcome::Done(w, _) && w == v);
    }
    if exists|b: Seq<u8>|
        (#[trigger] receive::<T>(ty, None, b, 0)) matches Outcome::Done(w, _) && w == v {
        let b = choose|b: Seq<u8>|
            (#[trigger] receive::<T>(ty, None, b, 0)) matches Outcome::Done(w, _) && w == v;
        received_is_typed::<T>(ty, None, b, 0);
    }
}

} // verus!
