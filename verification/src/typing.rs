//! What values a type has.
use vstd::prelude::*;
use vstd::utf8::{decode_utf8_encode_utf8, encode_utf8, valid_utf8};

use crate::leb128::unsigned_at;
use crate::primitive::{bounded_at, discriminant_at, list_header_at};
use crate::receive::{elements, flag_count, plain_at, receive, selected, sub_at, unboxed, Outcome};
use crate::scan::{ReceiveError, Scan};
use crate::stability::{lemma_elements_extend, lemma_integers_extend, lemma_prefix_of_itself};
use crate::subscription::SubModel;
use crate::value::{Case, Type, ValModel};

verus! {

/// Whether each flag is one of the first 64 that a type has, and they come in the type's order.
pub open spec fn flags_typed(flags: Seq<Seq<char>>, names: Seq<String>) -> bool {
    exists|index: spec_fn(int) -> int| #[trigger] flags_at(flags, names, index)
}

/// Whether flag `i` is the name at `index(i)`, and the indices increase.
pub open spec fn flags_at(
    flags: Seq<Seq<char>>,
    names: Seq<String>,
    index: spec_fn(int) -> int,
) -> bool {
    &&& forall|i: int|
        0 <= i < flags.len() ==> 0 <= #[trigger] index(i) < flag_count(names) && flags[i]
            == names[index(i)]@
    &&& forall|i: int, j: int|
        0 <= i < j < flags.len() ==> #[trigger] index(i) < #[trigger] index(j)
}

/// Whether a value is one of type `ty`.
///
/// Of what a payload has a number for, there are no more than the number can say: elements of a
/// list, bytes of a string, cases.
pub open spec fn typed(v: ValModel, ty: Type) -> bool
    decreases ty,
{
    match ty {
        Type::Bool => v is Bool,
        Type::U8 => v is U8,
        Type::U16 => v is U16,
        Type::U32 => v is U32,
        Type::U64 => v is U64,
        Type::S8 => v is S8,
        Type::S16 => v is S16,
        Type::S32 => v is S32,
        Type::S64 => v is S64,
        Type::Float32 => v is Float32,
        Type::Float64 => v is Float64,
        Type::Char => v is Char,
        Type::String => v matches ValModel::String(text) && encode_utf8(text).len() <= usize::MAX,
        Type::List(element) => {
            &&& v matches ValModel::List(vs)
            &&& vs.len() <= u32::MAX
            &&& forall|i: int| 0 <= i < vs.len() ==> typed(#[trigger] vs[i], *element)
        },
        Type::Record(fields) => {
            &&& v matches ValModel::Record(vs)
            &&& vs.len() == fields@.len()
            &&& forall|i: int|
                0 <= i < fields@.len() ==> (#[trigger] vs[i]).0 == fields@[i].name@ && typed(
                    vs[i].1,
                    fields@[i].ty,
                )
        },
        Type::Tuple(types) => {
            &&& v matches ValModel::Tuple(vs)
            &&& vs.len() == types@.len()
            &&& forall|i: int| 0 <= i < types@.len() ==> typed(#[trigger] vs[i], types@[i])
        },
        Type::Variant(cases) => {
            &&& v matches ValModel::Variant { name, value }
            &&& exists|i: int|
                0 <= i < cases@.len() && i <= u32::MAX && (#[trigger] cases@[i]).name@ == name
                    && match value {
                    Some(value) => cases@[i].ty is Some && typed(*value, cases@[i].ty->0),
                    None => cases@[i].ty is None,
                }
        },
        Type::Enum(names) => {
            &&& v matches ValModel::Enum(name)
            &&& exists|i: int|
                0 <= i < names@.len() && i <= u32::MAX && (#[trigger] names@[i])@ == name
        },
        Type::Option(some) => {
            &&& v matches ValModel::Option(value)
            &&& value matches Some(value) ==> typed(*value, *some)
        },
        Type::Result { ok, err } => {
            &&& v matches ValModel::Result(result)
            &&& match result {
                Ok(Some(value)) => ok is Some && typed(*value, *ok->0),
                Ok(None) => ok is None,
                Err(Some(value)) => err is Some && typed(*value, *err->0),
                Err(None) => err is None,
            }
        },
        Type::Flags(names) => {
            &&& v matches ValModel::Flags(flags)
            &&& flags_typed(flags, names@)
        },
        Type::Own(_) | Type::Borrow(_) => false,
    }
}

/// Whether case `i` is the one of the name and the payload.
pub open spec fn is_case(
    cases: Seq<Case>,
    i: int,
    name: Seq<char>,
    value: Option<Box<ValModel>>,
) -> bool {
    &&& 0 <= i < cases.len()
    &&& i <= u32::MAX
    &&& cases[i].name@ == name
    &&& match value {
        Some(value) => cases[i].ty is Some && typed(*value, cases[i].ty->0),
        None => cases[i].ty is None,
    }
}

proof fn lemma_selected(names: Seq<String>, v: u64, n: nat) -> (index: spec_fn(int) -> int)
    requires
        n <= flag_count(names),
    ensures
        flags_at(selected(names, v, n), names, index),
        forall|i: int| 0 <= i < selected(names, v, n).len() ==> #[trigger] index(i) < n,
    decreases n,
{
    if n == 0 {
        |i: int| 0int
    } else {
        let before = selected(names, v, (n - 1) as nat);
        let index = lemma_selected(names, v, (n - 1) as nat);
        let last = before.len();
        let next = |i: int|
            if i == last {
                n - 1
            } else {
                index(i)
            };
        let flags = selected(names, v, n);
        assert forall|i: int| 0 <= i < flags.len() implies 0 <= #[trigger] next(i) < flag_count(
            names,
        )
            && flags[i] == names[next(i)]@ && next(i) < n by {
            if i < last {
                assert(index(i) < n);
            }
        }
        assert forall|i: int, j: int| 0 <= i < j < flags.len() implies #[trigger] next(i)
            < #[trigger] next(j) by {
            assert(index(i) < n - 1);
        }
        next
    }
}

proof fn lemma_plain_typed(ty: Type, b: Seq<u8>, at: int)
    requires
        ty.is_plain(),
        0 <= at,
    ensures
        plain_at(ty, b, at) matches Scan::Done(v, _) ==> typed(v, ty),
{
    match ty {
        Type::String => {
            if let Scan::Done(len, start) = bounded_at(
                b,
                at,
                usize::MAX as u64,
                ReceiveError::StringLength,
            ) {
                lemma_prefix_of_itself(b);
                lemma_integers_extend(b, b, at);
                if start + len <= b.len() && valid_utf8(b.subrange(start, start + len)) {
                    decode_utf8_encode_utf8(b.subrange(start, start + len));
                }
            }
        },
        Type::Flags(names) => {
            if let Scan::Done(ValModel::Flags(flags), _) = plain_at(ty, b, at) {
                let bits = unsigned_at(b, at)->Done_0;
                let index = lemma_selected(names@, bits, flag_count(names@));
                assert(flags_at(flags, names@, index));
            }
        },
        _ => {},
    }
}

proof fn lemma_elements_typed<T>(
    parent: Type,
    subs: Option<Seq<Option<SubModel<T>>>>,
    b: Seq<u8>,
    at: int,
    n: nat,
)
    requires
        0 <= at <= b.len(),
    ensures
        elements(parent, subs, b, at, n) matches Outcome::Done(vs, _) ==> vs.len() == n
            && forall|i: int|
            #![trigger vs[i]]
            0 <= i < n ==> parent.has_element(i) && typed(vs[i], parent.element(i)),
    decreases parent, 0nat, n,
{
    if n > 0 {
        lemma_elements_typed(parent, subs, b, at, (n - 1) as nat);
        lemma_prefix_of_itself(b);
        lemma_elements_extend(parent, subs, b, b, at, (n - 1) as nat);
        if let Outcome::Done(_, next) = elements(parent, subs, b, at, (n - 1) as nat) {
            let sub = sub_at(subs, n - 1);
            match parent {
                Type::List(ty) => received_is_typed(*ty, sub, b, next),
                Type::Record(fields) => if n <= fields@.len() {
                    received_is_typed(fields@[n - 1].ty, sub, b, next);
                },
                Type::Tuple(types) => if n <= types@.len() {
                    received_is_typed(types@[n - 1], sub, b, next);
                },
                _ => {},
            }
        }
    }
}

/// Whatever a payload holds, the value that is decoded from it is one of the type that was asked
/// for.
pub proof fn received_is_typed<T>(ty: Type, sub: Option<SubModel<T>>, b: Seq<u8>, at: int)
    requires
        0 <= at <= b.len(),
    ensures
        receive(ty, sub, b, at) matches Outcome::Done(v, _) ==> typed(v, ty),
    decreases ty, 1nat, 0nat,
{
    lemma_prefix_of_itself(b);
    lemma_integers_extend(b, b, at);
    match ty {
        Type::List(_) => {
            if let Scan::Done(n, next) = list_header_at(b, at) {
                lemma_elements_typed::<T>(ty, None, b, next, n as nat);
            }
        },
        Type::Record(fields) => {
            lemma_elements_typed::<T>(ty, None, b, at, fields@.len());
            if let Some(SubModel::Record(subs)) = sub {
                lemma_elements_typed(ty, Some(subs), b, at, fields@.len());
            }
        },
        Type::Tuple(types) => {
            lemma_elements_typed::<T>(ty, None, b, at, types@.len());
            if let Some(SubModel::Tuple(subs)) = sub {
                lemma_elements_typed(ty, Some(subs), b, at, types@.len());
            }
        },
        Type::Variant(cases) => {
            if let Scan::Done(i, next) = discriminant_at(b, at) {
                if i < cases@.len() {
                    assert(cases@[i as int].name@ == cases@[i as int].name@);
                    if let Some(case) = cases@[i as int].ty {
                        let subs = match sub {
                            Some(SubModel::Variant(subs)) => Some(subs),
                            _ => None,
                        };
                        received_is_typed(case, sub_at(subs, i as int), b, next);
                    }
                }
            }
        },
        Type::Option(some) => {
            if at < b.len() {
                received_is_typed::<T>(*some, None, b, at + 1);
                if let Some(SubModel::Option(sub)) = sub {
                    received_is_typed(*some, Some(*sub), b, at + 1);
                }
            }
        },
        Type::Result { ok, err } => {
            let (sub_ok, sub_err) = match sub {
                Some(SubModel::Result { ok, err }) => (unboxed(ok), unboxed(err)),
                _ => (None, None),
            };
            if at < b.len() {
                if let Some(ty) = ok {
                    received_is_typed(*ty, sub_ok, b, at + 1);
                }
                if let Some(ty) = err {
                    received_is_typed(*ty, sub_err, b, at + 1);
                }
            }
        },
        Type::Own(_) | Type::Borrow(_) => {},
        _ => lemma_plain_typed(ty, b, at),
    }
}

} // verus!
