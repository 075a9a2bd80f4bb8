//! Decoding of dynamically typed values.
//!
//! A value is decoded from a buffer that holds the payload received so far. Positions count from
//! the start of the payload, so a buffer that has grown is decoded again from the same position.
use vstd::prelude::*;

use crate::leb128::{read_signed, read_unsigned, signed_at, unsigned_at};
use crate::primitive::{
    bool_at, char_at, discriminant_at, float32_at, float64_at, list_header_at, receive_bool,
    receive_char, receive_discriminant, receive_float32, receive_float64, receive_list_header,
    receive_s16, receive_s32, receive_s8, receive_string, receive_u16, receive_u32, receive_u8,
    s16_at, s32_at, s8_at, string_at, u16_at, u32_at, u8_at,
};
use crate::scan::{ReceiveError, Scan, Scanned};
use crate::subscription::{
    boxed_sub_model, sub_ref_model, subs_model_of, AsyncSubscription, SubModel,
};
use crate::value::{
    boxed_model, lemma_model, names_model, vals_model, Case, Field, Type, Val, ValModel,
};

verus! {

/// The outcome of decoding a value, or values, of a dynamic type.
pub enum Outcome<V, T> {
    /// The value, and the position of the first byte after it.
    Done(V, int),
    /// The buffer ends before the value does.
    Incomplete,
    /// A resource of the given type has to be decoded at the position, with the subscription.
    Resource(u32, int, Option<SubModel<T>>),
    /// No further bytes can make the buffer valid.
    Failed(ReceiveError),
}

/// The outcome of [`receive_value`], for one value or several.
#[derive(Debug, PartialEq, Eq)]
pub enum Received<'a, V, T> {
    /// The value, and the position of the first byte after it.
    Done(V, usize),
    /// The buffer ends before the value does.
    Incomplete,
    /// A resource of the given type has to be decoded at the position, with the subscription.
    Resource(u32, usize, Option<&'a AsyncSubscription<T>>),
    /// No further bytes can make the buffer valid.
    Failed(ReceiveError),
}

/// The content of the outcome for one value.
pub open spec fn outcome<T>(r: Received<Val, T>) -> Outcome<ValModel, T> {
    match r {
        Received::Done(v, next) => Outcome::Done(v@, next as int),
        Received::Incomplete => Outcome::Incomplete,
        Received::Resource(ty, at, sub) => Outcome::Resource(ty, at as int, sub_ref_model(sub)),
        Received::Failed(e) => Outcome::Failed(e),
    }
}

/// The content of the outcome for several values.
pub open spec fn outcomes<T>(r: Received<Vec<Val>, T>) -> Outcome<Seq<ValModel>, T> {
    match r {
        Received::Done(vs, next) => Outcome::Done(vals_model(vs@), next as int),
        Received::Incomplete => Outcome::Incomplete,
        Received::Resource(ty, at, sub) => Outcome::Resource(ty, at as int, sub_ref_model(sub)),
        Received::Failed(e) => Outcome::Failed(e),
    }
}

/// Decodes a plain value with a function from what was scanned.
pub open spec fn map_scan<V>(s: Scan<V>, f: spec_fn(V) -> ValModel) -> Scan<ValModel> {
    match s {
        Scan::Done(v, next) => Scan::Done(f(v), next),
        Scan::Incomplete => Scan::Incomplete,
        Scan::Failed(e) => Scan::Failed(e),
    }
}

/// The outcome that a scan is.
pub open spec fn from_scan<V, T>(s: Scan<V>) -> Outcome<V, T> {
    match s {
        Scan::Done(v, next) => Outcome::Done(v, next),
        Scan::Incomplete => Outcome::Incomplete,
        Scan::Failed(e) => Outcome::Failed(e),
    }
}

/// The outcome with a function applied to the value.
pub open spec fn map_outcome<V, W, T>(o: Outcome<V, T>, f: spec_fn(V) -> W) -> Outcome<W, T> {
    match o {
        Outcome::Done(v, next) => Outcome::Done(f(v), next),
        Outcome::Incomplete => Outcome::Incomplete,
        Outcome::Resource(ty, at, sub) => Outcome::Resource(ty, at, sub),
        Outcome::Failed(e) => Outcome::Failed(e),
    }
}

impl Type {
    /// Whether values of the type never hold anything asynchronous, whatever they are.
    pub open spec fn is_plain(self) -> bool {
        match self {
            Type::List(_)
            | Type::Record(_)
            | Type::Tuple(_)
            | Type::Variant(_)
            | Type::Option(_)
            | Type::Result { .. }
            | Type::Own(_)
            | Type::Borrow(_) => false,
            _ => true,
        }
    }
}

/// Whether bit `i` of `v` is set.
pub open spec fn has_bit(v: u64, i: u64) -> bool {
    v & (1u64 << i) != 0
}

/// Of the first `n` names, those whose bit is set.
pub open spec fn selected(names: Seq<String>, v: u64, n: nat) -> Seq<Seq<char>>
    decreases n,
{
    if n == 0 {
        Seq::empty()
    } else {
        let rest = selected(names, v, (n - 1) as nat);
        if has_bit(v, (n - 1) as u64) {
            rest.push(names[n - 1]@)
        } else {
            rest
        }
    }
}

/// The number of flags that are read: the type's, of which there are at most 64.
pub open spec fn flag_count(names: Seq<String>) -> nat {
    if names.len() <= 64 {
        names.len()
    } else {
        64
    }
}

/// The enum case at `at`.
pub open spec fn enum_at(names: Seq<String>, b: Seq<u8>, at: int) -> Scan<ValModel> {
    match discriminant_at(b, at) {
        Scan::Done(i, next) => if i < names.len() {
            Scan::Done(ValModel::Enum(names[i as int]@), next)
        } else {
            Scan::Failed(ReceiveError::UnknownEnum)
        },
        Scan::Incomplete => Scan::Incomplete,
        Scan::Failed(e) => Scan::Failed(e),
    }
}

/// The value of a plain type at `at`.
pub open spec fn plain_at(ty: Type, b: Seq<u8>, at: int) -> Scan<ValModel> {
    match ty {
        Type::Bool => map_scan(bool_at(b, at), |v: bool| ValModel::Bool(v)),
        Type::U8 => map_scan(u8_at(b, at), |v: u8| ValModel::U8(v)),
        Type::U16 => map_scan(u16_at(b, at), |v: u16| ValModel::U16(v)),
        Type::U32 => map_scan(u32_at(b, at), |v: u32| ValModel::U32(v)),
        Type::U64 => map_scan(unsigned_at(b, at), |v: u64| ValModel::U64(v)),
        Type::S8 => map_scan(s8_at(b, at), |v: i8| ValModel::S8(v)),
        Type::S16 => map_scan(s16_at(b, at), |v: i16| ValModel::S16(v)),
        Type::S32 => map_scan(s32_at(b, at), |v: i32| ValModel::S32(v)),
        Type::S64 => map_scan(signed_at(b, at), |v: i64| ValModel::S64(v)),
        Type::Float32 => map_scan(float32_at(b, at), |v: u32| ValModel::Float32(v)),
        Type::Float64 => map_scan(float64_at(b, at), |v: u64| ValModel::Float64(v)),
        Type::Char => map_scan(char_at(b, at), |v: char| ValModel::Char(v)),
        Type::String => map_scan(string_at(b, at), |v: Seq<char>| ValModel::String(v)),
        Type::Enum(names) => enum_at(names@, b, at),
        Type::Flags(names) => map_scan(
            unsigned_at(b, at),
            |v: u64| ValModel::Flags(selected(names@, v, flag_count(names@))),
        ),
        _ => Scan::Incomplete,
    }
}

/// Why a list cannot be decoded with the subscription, if it has one.
///
/// The items of a list share the list's subscription, and none can be split among them.
pub open spec fn list_sub_error<T>(sub: SubModel<T>) -> ReceiveError {
    match sub {
        SubModel::List(sub) => match *sub {
            SubModel::List(_) => ReceiveError::DemultiplexList,
            SubModel::Stream { .. } => ReceiveError::DemultiplexStream,
            _ => ReceiveError::DemultiplexOther,
        },
        _ => ReceiveError::ListSubscription,
    }
}

/// The subscription of element `i`.
pub open spec fn sub_at<T>(subs: Option<Seq<Option<SubModel<T>>>>, i: int) -> Option<SubModel<T>> {
    match subs {
        Some(subs) => if 0 <= i < subs.len() {
            subs[i]
        } else {
            None
        },
        None => None,
    }
}

/// What a boxed subscription holds.
pub open spec fn unboxed<T>(sub: Option<Box<SubModel<T>>>) -> Option<SubModel<T>> {
    match sub {
        Some(sub) => Some(*sub),
        None => None,
    }
}

/// The content of a payload that is there.
pub open spec fn some_box(v: ValModel) -> Option<Box<ValModel>> {
    Some(Box::new(v))
}

/// Values with the names of their fields.
pub open spec fn named(fields: Seq<Field>, vs: Seq<ValModel>) -> Seq<(Seq<char>, ValModel)> {
    Seq::new(vs.len(), |i: int| (fields[i].name@, vs[i]))
}

/// The first `n` elements of a value of type `parent`, one after the other from `at` on.
pub open spec fn elements<T>(
    parent: Type,
    subs: Option<Seq<Option<SubModel<T>>>>,
    b: Seq<u8>,
    at: int,
    n: nat,
) -> Outcome<Seq<ValModel>, T>
    decreases parent, 0nat, n,
{
    if n == 0 {
        Outcome::Done(Seq::empty(), at)
    } else {
        match elements(parent, subs, b, at, (n - 1) as nat) {
            Outcome::Done(vs, next) => {
                let sub = sub_at(subs, n - 1);
                let element = match parent {
                    Type::List(ty) => receive(*ty, sub, b, next),
                    Type::Record(fields) => if n <= fields@.len() {
                        receive(fields@[n - 1].ty, sub, b, next)
                    } else {
                        Outcome::Incomplete
                    },
                    Type::Tuple(types) => if n <= types@.len() {
                        receive(types@[n - 1], sub, b, next)
                    } else {
                        Outcome::Incomplete
                    },
                    _ => Outcome::Incomplete,
                };
                map_outcome(element, |v: ValModel| vs.push(v))
            },
            o => o,
        }
    }
}

/// The value of type `ty` at `at`.
pub open spec fn receive<T>(ty: Type, sub: Option<SubModel<T>>, b: Seq<u8>, at: int) -> Outcome<
    ValModel,
    T,
>
    decreases ty, 1nat, 0nat,
{
    match ty {
        Type::List(_) => match sub {
            Some(sub) => Outcome::Failed(list_sub_error(sub)),
            None => match list_header_at(b, at) {
                Scan::Done(n, next) => map_outcome(
                    elements(ty, None, b, next, n as nat),
                    |vs: Seq<ValModel>| ValModel::List(vs),
                ),
                Scan::Incomplete => Outcome::Incomplete,
                Scan::Failed(e) => Outcome::Failed(e),
            },
        },
        Type::Record(fields) => {
            let f = |vs: Seq<ValModel>| ValModel::Record(named(fields@, vs));
            match sub {
                None => map_outcome(elements(ty, None, b, at, fields@.len()), f),
                Some(SubModel::Record(subs)) => map_outcome(
                    elements(ty, Some(subs), b, at, fields@.len()),
                    f,
                ),
                Some(_) => Outcome::Failed(ReceiveError::RecordSubscription),
            }
        },
        Type::Tuple(types) => {
            let f = |vs: Seq<ValModel>| ValModel::Tuple(vs);
            match sub {
                None => map_outcome(elements(ty, None, b, at, types@.len()), f),
                Some(SubModel::Tuple(subs)) => map_outcome(
                    elements(ty, Some(subs), b, at, types@.len()),
                    f,
                ),
                Some(_) => Outcome::Failed(ReceiveError::TupleSubscription),
            }
        },
        Type::Variant(cases) => match discriminant_at(b, at) {
            Scan::Done(i, next) => if i >= cases@.len() {
                Outcome::Failed(ReceiveError::UnknownVariant)
            } else if sub is Some && !(sub->0 is Variant) {
                Outcome::Failed(ReceiveError::VariantSubscription)
            } else {
                let name = cases@[i as int].name@;
                match cases@[i as int].ty {
                    Some(ty) => {
                        let subs = match sub {
                            Some(SubModel::Variant(subs)) => Some(subs),
                            _ => None,
                        };
                        map_outcome(
                            receive(ty, sub_at(subs, i as int), b, next),
                            |v: ValModel| ValModel::Variant { name, value: some_box(v) },
                        )
                    },
                    None => Outcome::Done(ValModel::Variant { name, value: None }, next),
                }
            },
            Scan::Incomplete => Outcome::Incomplete,
            Scan::Failed(e) => Outcome::Failed(e),
        },
        Type::Option(ty) => match u8_at(b, at) {
            Scan::Done(tag, next) => if tag == 0 {
                Outcome::Done(ValModel::Option(None), next)
            } else if tag == 1 {
                let f = |v: ValModel| ValModel::Option(some_box(v));
                match sub {
                    None => map_outcome(receive(*ty, None, b, next), f),
                    Some(SubModel::Option(sub)) => map_outcome(
                        receive(*ty, Some(*sub), b, next),
                        f,
                    ),
                    Some(_) => Outcome::Failed(ReceiveError::OptionSubscription),
                }
            } else {
                Outcome::Failed(ReceiveError::InvalidOption)
            },
            Scan::Incomplete => Outcome::Incomplete,
            Scan::Failed(e) => Outcome::Failed(e),
        },
        Type::Result { ok, err } => if sub is Some && !(sub->0 is Result) {
            Outcome::Failed(ReceiveError::ResultSubscription)
        } else {
            let (sub_ok, sub_err) = match sub {
                Some(SubModel::Result { ok, err }) => (unboxed(ok), unboxed(err)),
                _ => (None, None),
            };
            match u8_at(b, at) {
                Scan::Done(tag, next) => if tag == 0 {
                    match ok {
                        Some(ty) => map_outcome(
                            receive(*ty, sub_ok, b, next),
                            |v: ValModel| ValModel::Result(Ok(some_box(v))),
                        ),
                        None => Outcome::Done(ValModel::Result(Ok(None)), next),
                    }
                } else if tag == 1 {
                    match err {
                        Some(ty) => map_outcome(
                            receive(*ty, sub_err, b, next),
                            |v: ValModel| ValModel::Result(Err(some_box(v))),
                        ),
                        None => Outcome::Done(ValModel::Result(Err(None)), next),
                    }
                } else {
                    Outcome::Failed(ReceiveError::InvalidResult)
                },
                Scan::Incomplete => Outcome::Incomplete,
                Scan::Failed(e) => Outcome::Failed(e),
            }
        },
        Type::Own(ty) => Outcome::Resource(ty, at, sub),
        Type::Borrow(ty) => Outcome::Resource(ty, at, sub),
        _ => from_scan(plain_at(ty, b, at)),
    }
}

/// The content of a scanned value.
pub open spec fn val_scan(s: Scanned<Val>) -> Scan<ValModel> {
    match s {
        Scanned::Done(v, next) => Scan::Done(v@, next as int),
        Scanned::Incomplete => Scan::Incomplete,
        Scanned::Failed(e) => Scan::Failed(e),
    }
}

/// Decodes the names of the flags that are set.
fn receive_flags(names: &Vec<String>, v: u64) -> (r: Vec<String>)
    ensures
        names_model(r@) == selected(names@, v, flag_count(names@)),
{
    let n: usize = if names.len() <= 64 {
        names.len()
    } else {
        64
    };
    let mut r: Vec<String> = Vec::new();
    let mut i: usize = 0;
    while i < n
        invariant
            i <= n,
            n == flag_count(names@),
            n <= names@.len(),
            names_model(r@) == selected(names@, v, i as nat),
        decreases n - i,
    {
        let bit: u64 = i as u64;
        if v & (1u64 << bit) != 0 {
            let ghost before = r@;
            r.push(names[i].clone());
            assert(names_model(r@) =~= names_model(before).push(names@[i as int]@));
        }
        i = i + 1;
    }
    r
}

/// Decodes a value of a plain type.
fn receive_plain(b: &[u8], at: usize, ty: &Type) -> (r: Scanned<Val>)
    requires
        ty.is_plain(),
    ensures
        val_scan(r) == plain_at(*ty, b@, at as int),
{
    match ty {
        Type::Bool => match receive_bool(b, at) {
            Scanned::Done(v, next) => Scanned::Done(Val::Bool(v), next),
            Scanned::Incomplete => Scanned::Incomplete,
            Scanned::Failed(e) => Scanned::Failed(e),
        },
        Type::U8 => match receive_u8(b, at) {
            Scanned::Done(v, next) => Scanned::Done(Val::U8(v), next),
            Scanned::Incomplete => Scanned::Incomplete,
            Scanned::Failed(e) => Scanned::Failed(e),
        },
        Type::U16 => match receive_u16(b, at) {
            Scanned::Done(v, next) => Scanned::Done(Val::U16(v), next),
            Scanned::Incomplete => Scanned::Incomplete,
            Scanned::Failed(e) => Scanned::Failed(e),
        },
        Type::U32 => match receive_u32(b, at) {
            Scanned::Done(v, next) => Scanned::Done(Val::U32(v), next),
            Scanned::Incomplete => Scanned::Incomplete,
            Scanned::Failed(e) => Scanned::Failed(e),
        },
        Type::U64 => match read_unsigned(b, at) {
            Scanned::Done(v, next) => Scanned::Done(Val::U64(v), next),
            Scanned::Incomplete => Scanned::Incomplete,
            Scanned::Failed(e) => Scanned::Failed(e),
        },
        Type::S8 => match receive_s8(b, at) {
            Scanned::Done(v, next) => Scanned::Done(Val::S8(v), next),
            Scanned::Incomplete => Scanned::Incomplete,
            Scanned::Failed(e) => Scanned::Failed(e),
        },
        Type::S16 => match receive_s16(b, at) {
            Scanned::Done(v, next) => Scanned::Done(Val::S16(v), next),
            Scanned::Incomplete => Scanned::Incomplete,
            Scanned::Failed(e) => Scanned::Failed(e),
        },
        Type::S32 => match receive_s32(b, at) {
            Scanned::Done(v, next) => Scanned::Done(Val::S32(v), next),
            Scanned::Incomplete => Scanned::Incomplete,
            Scanned::Failed(e) => Scanned::Failed(e),
        },
        Type::S64 => match read_signed(b, at) {
            Scanned::Done(v, next) => Scanned::Done(Val::S64(v), next),
            Scanned::Incomplete => Scanned::Incomplete,
            Scanned::Failed(e) => Scanned::Failed(e),
        },
        Type::Float32 => match receive_float32(b, at) {
            Scanned::Done(v, next) => Scanned::Done(Val::Float32(v), next),
            Scanned::Incomplete => Scanned::Incomplete,
            Scanned::Failed(e) => Scanned::Failed(e),
        },
        Type::Float64 => match receive_float64(b, at) {
            Scanned::Done(v, next) => Scanned::Done(Val::Float64(v), next),
            Scanned::Incomplete => Scanned::Incomplete,
            Scanned::Failed(e) => Scanned::Failed(e),
        },
        Type::Char => match receive_char(b, at) {
            Scanned::Done(v, next) => Scanned::Done(Val::Char(v), next),
            Scanned::Incomplete => Scanned::Incomplete,
            Scanned::Failed(e) => Scanned::Failed(e),
        },
        Type::String => match receive_string(b, at) {
            Scanned::Done(v, next) => Scanned::Done(Val::String(v), next),
            Scanned::Incomplete => Scanned::Incomplete,
            Scanned::Failed(e) => Scanned::Failed(e),
        },
        Type::Enum(names) => match receive_discriminant(b, at) {
            Scanned::Done(i, next) => if i < names.len() as u64 {
                Scanned::Done(Val::Enum(names[i as usize].clone()), next)
            } else {
                Scanned::Failed(ReceiveError::UnknownEnum)
            },
            Scanned::Incomplete => Scanned::Incomplete,
            Scanned::Failed(e) => Scanned::Failed(e),
        },
        Type::Flags(names) => match read_unsigned(b, at) {
            Scanned::Done(v, next) => Scanned::Done(Val::Flags(receive_flags(names, v)), next),
            Scanned::Incomplete => Scanned::Incomplete,
            Scanned::Failed(e) => Scanned::Failed(e),
        },
        _ => Scanned::Incomplete,
    }
}

impl Type {
    /// Whether values of the type have an element `i`.
    pub open spec fn has_element(self, i: int) -> bool {
        match self {
            Type::List(_) => true,
            Type::Record(fields) => 0 <= i < fields@.len(),
            Type::Tuple(types) => 0 <= i < types@.len(),
            _ => false,
        }
    }

    /// The type of element `i`.
    pub open spec fn element(self, i: int) -> Type
        recommends
            self.has_element(i),
    {
        match self {
            Type::List(ty) => *ty,
            Type::Record(fields) => fields@[i].ty,
            Type::Tuple(types) => types@[i],
            _ => self,
        }
    }

    /// The type of element `i`.
    fn element_type(&self, i: usize) -> (ty: &Type)
        requires
            self.has_element(i as int),
        ensures
            *ty == self.element(i as int),
            decreases_to!(self => ty),
    {
        match self {
            Type::List(ty) => &**ty,
            Type::Record(fields) => &fields[i].ty,
            Type::Tuple(types) => &types[i],
            _ => self,
        }
    }
}

/// The content of borrowed subscriptions of elements.
pub open spec fn subs_ref_model<T>(subs: Option<&Vec<Option<AsyncSubscription<T>>>>) -> Option<
    Seq<Option<SubModel<T>>>,
> {
    match subs {
        Some(subs) => Some(subs_model_of(*subs)),
        None => None,
    }
}

/// The subscription of element `i`.
pub(crate) fn select_sub<T>(
    subs: Option<&Vec<Option<AsyncSubscription<T>>>>,
    i: usize,
) -> (r: Option<&AsyncSubscription<T>>)
    ensures
        sub_ref_model(r) == sub_at(subs_ref_model(subs), i as int),
{
    match subs {
        Some(subs) => if i < subs.len() {
            subs[i].as_ref()
        } else {
            None
        },
        None => None,
    }
}

/// Where an element does not come out, neither do any more.
pub proof fn lemma_elements_stop<T>(
    parent: Type,
    subs: Option<Seq<Option<SubModel<T>>>>,
    b: Seq<u8>,
    at: int,
    k: nat,
    n: nat,
)
    requires
        k <= n,
        !(elements(parent, subs, b, at, k) is Done),
    ensures
        elements(parent, subs, b, at, n) == elements(parent, subs, b, at, k),
    decreases n,
{
    if k < n {
        lemma_elements_stop(parent, subs, b, at, k, (n - 1) as nat);
    }
}

/// As many elements come out as were asked for.
pub proof fn lemma_elements_len<T>(
    parent: Type,
    subs: Option<Seq<Option<SubModel<T>>>>,
    b: Seq<u8>,
    at: int,
    n: nat,
)
    ensures
        elements(parent, subs, b, at, n) matches Outcome::Done(vs, _) ==> vs.len() == n,
    decreases n,
{
    if n > 0 {
        lemma_elements_len(parent, subs, b, at, (n - 1) as nat);
    }
}

/// Decodes `n` elements of a value of type `parent`.
fn receive_elements<'a, T>(
    b: &[u8],
    at: usize,
    subs: Option<&'a Vec<Option<AsyncSubscription<T>>>>,
    parent: &Type,
    n: usize,
) -> (r: Received<'a, Vec<Val>, T>)
    requires
        forall|i: int| 0 <= i < n ==> parent.has_element(i),
    ensures
        outcomes(r) == elements(*parent, subs_ref_model(subs), b@, at as int, n as nat),
    decreases parent, 0nat, 0nat,
{
    let mut vals: Vec<Val> = Vec::new();
    let mut next: usize = at;
    let mut i: usize = 0;
    assert(vals_model(vals@) =~= Seq::empty());
    while i < n
        invariant
            i <= n,
            forall|i: int| 0 <= i < n ==> parent.has_element(i),
            elements(*parent, subs_ref_model(subs), b@, at as int, i as nat) == Outcome::<
                Seq<ValModel>,
                T,
            >::Done(vals_model(vals@), next as int),
        decreases n - i,
    {
        assert(parent.has_element(i as int));
        let ty: &Type = parent.element_type(i);
        let r: Received<'a, Val, T> = receive_value(b, next, select_sub(subs, i), ty);
        proof {
            if !(r is Done) {
                lemma_elements_stop(
                    *parent,
                    subs_ref_model(subs),
                    b@,
                    at as int,
                    i as nat + 1,
                    n as nat,
                );
            }
        }
        match r {
            Received::Done(v, end) => {
                let ghost before = vals@;
                vals.push(v);
                assert(vals_model(vals@) =~= vals_model(before).push(v@));
                next = end;
            },
            Received::Incomplete => return Received::Incomplete,
            Received::Resource(ty, at, sub) => return Received::Resource(ty, at, sub),
            Received::Failed(e) => return Received::Failed(e),
        }
        i = i + 1;
    }
    Received::Done(vals, next)
}

/// Names each value after its field.
fn name_fields(fields: &Vec<Field>, vals: Vec<Val>) -> (r: Val)
    requires
        vals@.len() == fields@.len(),
    ensures
        r@ == ValModel::Record(named(fields@, vals_model(vals@))),
{
    let mut named_vals: Vec<(String, Val)> = Vec::new();
    for v in it: vals.into_iter()
        invariant
            it.seq() == vals@,
            vals@.len() == fields@.len(),
            named_vals@.len() == it.index(),
            forall|i: int|
                0 <= i < named_vals@.len() ==> (#[trigger] named_vals@[i]).0@ == fields@[i].name@
                    && named_vals@[i].1 == vals@[i],
    {
        let i: usize = named_vals.len();
        named_vals.push((fields[i].name.clone(), v));
    }
    let r: Val = Val::Record(named_vals);
    proof {
        lemma_model(r);
        assert(r@->Record_0 =~= named(fields@, vals_model(vals@)));
    }
    r
}

/// Decodes a record, whose type is `ty`.
fn receive_record<'a, T>(
    payload: &[u8],
    at: usize,
    sub: Option<&'a AsyncSubscription<T>>,
    ty: &Type,
) -> (r: Received<'a, Val, T>)
    requires
        ty is Record,
    ensures
        outcome(r) == receive(*ty, sub_ref_model(sub), payload@, at as int),
    decreases ty, 0nat, 1nat,
{
    let fields: &Vec<Field> = match ty {
        Type::Record(fields) => fields,
        _ => return Received::Incomplete,
    };
    let subs: Option<&'a Vec<Option<AsyncSubscription<T>>>> = match sub {
        None => None,
        Some(AsyncSubscription::Record(subs)) => Some(subs),
        Some(_) => return Received::Failed(ReceiveError::RecordSubscription),
    };
    match receive_elements(payload, at, subs, ty, fields.len()) {
        Received::Done(vs, next) => {
            proof {
                lemma_elements_len(
                    *ty,
                    subs_ref_model(subs),
                    payload@,
                    at as int,
                    fields@.len(),
                );
            }
            Received::Done(name_fields(fields, vs), next)
        },
        Received::Incomplete => Received::Incomplete,
        Received::Resource(ty, at, sub) => Received::Resource(ty, at, sub),
        Received::Failed(e) => Received::Failed(e),
    }
}

/// Decodes a tuple, whose type is `ty`.
fn receive_tuple<'a, T>(
    payload: &[u8],
    at: usize,
    sub: Option<&'a AsyncSubscription<T>>,
    ty: &Type,
) -> (r: Received<'a, Val, T>)
    requires
        ty is Tuple,
    ensures
        outcome(r) == receive(*ty, sub_ref_model(sub), payload@, at as int),
    decreases ty, 0nat, 1nat,
{
    let types: &Vec<Type> = match ty {
        Type::Tuple(types) => types,
        _ => return Received::Incomplete,
    };
    let subs: Option<&'a Vec<Option<AsyncSubscription<T>>>> = match sub {
        None => None,
        Some(AsyncSubscription::Tuple(subs)) => Some(subs),
        Some(_) => return Received::Failed(ReceiveError::TupleSubscription),
    };
    match receive_elements(payload, at, subs, ty, types.len()) {
        Received::Done(vs, next) => {
            let v: Val = Val::Tuple(vs);
            proof {
                lemma_model(v);
            }
            Received::Done(v, next)
        },
        Received::Incomplete => Received::Incomplete,
        Received::Resource(ty, at, sub) => Received::Resource(ty, at, sub),
        Received::Failed(e) => Received::Failed(e),
    }
}

/// Decodes a variant, whose type is `ty`.
fn receive_variant<'a, T>(
    payload: &[u8],
    at: usize,
    sub: Option<&'a AsyncSubscription<T>>,
    ty: &Type,
) -> (r: Received<'a, Val, T>)
    requires
        ty is Variant,
    ensures
        outcome(r) == receive(*ty, sub_ref_model(sub), payload@, at as int),
    decreases ty, 0nat, 1nat,
{
    let cases: &Vec<Case> = match ty {
        Type::Variant(cases) => cases,
        _ => return Received::Incomplete,
    };
    let (i, next): (u64, usize) = match receive_discriminant(payload, at) {
        Scanned::Done(i, next) => (i, next),
        Scanned::Incomplete => return Received::Incomplete,
        Scanned::Failed(e) => return Received::Failed(e),
    };
    if i >= cases.len() as u64 {
        return Received::Failed(ReceiveError::UnknownVariant);
    }
    let i: usize = i as usize;
    let subs: Option<&'a Vec<Option<AsyncSubscription<T>>>> = match sub {
        None => None,
        Some(AsyncSubscription::Variant(subs)) => Some(subs),
        Some(_) => return Received::Failed(ReceiveError::VariantSubscription),
    };
    let (value, next): (Option<Box<Val>>, usize) = match &cases[i].ty {
        Some(ty) => match receive_value(payload, next, select_sub(subs, i), ty) {
            Received::Done(v, next) => (Some(Box::new(v)), next),
            r => return r,
        },
        None => (None, next),
    };
    let v: Val = Val::Variant { name: cases[i].name.clone(), value };
    proof {
        lemma_model(v);
    }
    Received::Done(v, next)
}

/// Decodes an option, whose type is `ty`.
fn receive_option<'a, T>(
    payload: &[u8],
    at: usize,
    sub: Option<&'a AsyncSubscription<T>>,
    ty: &Type,
) -> (r: Received<'a, Val, T>)
    requires
        ty is Option,
    ensures
        outcome(r) == receive(*ty, sub_ref_model(sub), payload@, at as int),
    decreases ty, 0nat, 1nat,
{
    let some: &Type = match ty {
        Type::Option(ty) => &**ty,
        _ => return Received::Incomplete,
    };
    let (tag, next): (u8, usize) = match receive_u8(payload, at) {
        Scanned::Done(tag, next) => (tag, next),
        Scanned::Incomplete => return Received::Incomplete,
        Scanned::Failed(e) => return Received::Failed(e),
    };
    if tag > 1 {
        return Received::Failed(ReceiveError::InvalidOption);
    }
    let (value, next): (Option<Box<Val>>, usize) = if tag == 0 {
        (None, next)
    } else {
        let sub: Option<&'a AsyncSubscription<T>> = match sub {
            None => None,
            Some(AsyncSubscription::Option(sub)) => Some(&**sub),
            Some(_) => return Received::Failed(ReceiveError::OptionSubscription),
        };
        match receive_value(payload, next, sub, some) {
            Received::Done(v, next) => (Some(Box::new(v)), next),
            r => return r,
        }
    };
    let v: Val = Val::Option(value);
    proof {
        lemma_model(v);
    }
    Received::Done(v, next)
}

/// The payload of a result at `at`, where its type has one.
spec fn payload_at<T>(
    ty: Option<Box<Type>>,
    sub: Option<SubModel<T>>,
    b: Seq<u8>,
    at: int,
) -> Outcome<Option<Box<ValModel>>, T> {
    match ty {
        Some(ty) => map_outcome(receive(*ty, sub, b, at), |v: ValModel| some_box(v)),
        None => Outcome::Done(None, at),
    }
}

/// The content of the outcome for a payload.
spec fn payload_outcome<T>(r: Received<Option<Box<Val>>, T>) -> Outcome<Option<Box<ValModel>>, T> {
    match r {
        Received::Done(v, next) => Outcome::Done(boxed_model(v), next as int),
        Received::Incomplete => Outcome::Incomplete,
        Received::Resource(ty, at, sub) => Outcome::Resource(ty, at as int, sub_ref_model(sub)),
        Received::Failed(e) => Outcome::Failed(e),
    }
}

/// Decodes the payload of a result, where its type has one.
fn receive_payload<'a, T>(
    payload: &[u8],
    at: usize,
    sub: Option<&'a AsyncSubscription<T>>,
    ty: &Option<Box<Type>>,
) -> (r: Received<'a, Option<Box<Val>>, T>)
    ensures
        payload_outcome(r) == payload_at(*ty, sub_ref_model(sub), payload@, at as int),
    decreases ty, 1nat, 1nat,
{
    match ty {
        Some(ty) => match receive_value(payload, at, sub, ty) {
            Received::Done(v, next) => Received::Done(Some(Box::new(v)), next),
            Received::Incomplete => Received::Incomplete,
            Received::Resource(ty, at, sub) => Received::Resource(ty, at, sub),
            Received::Failed(e) => Received::Failed(e),
        },
        None => Received::Done(None, at),
    }
}

/// Decodes a result, whose type is `ty`.
fn receive_result<'a, T>(
    payload: &[u8],
    at: usize,
    sub: Option<&'a AsyncSubscription<T>>,
    ty: &Type,
) -> (r: Received<'a, Val, T>)
    requires
        ty is Result,
    ensures
        outcome(r) == receive(*ty, sub_ref_model(sub), payload@, at as int),
    decreases ty, 0nat, 1nat,
{
    let (ok, err) = match ty {
        Type::Result { ok, err } => (ok, err),
        _ => return Received::Incomplete,
    };
    let (sub_ok, sub_err): (Option<&'a AsyncSubscription<T>>, Option<&'a AsyncSubscription<T>>) =
        match sub {
        None => (None, None),
        Some(AsyncSubscription::Result { ok, err }) => (unbox_sub(ok), unbox_sub(err)),
        Some(_) => return Received::Failed(ReceiveError::ResultSubscription),
    };
    let (tag, next): (u8, usize) = match receive_u8(payload, at) {
        Scanned::Done(tag, next) => (tag, next),
        Scanned::Incomplete => return Received::Incomplete,
        Scanned::Failed(e) => return Received::Failed(e),
    };
    let received: Received<'a, Option<Box<Val>>, T> = if tag == 0 {
        receive_payload(payload, next, sub_ok, ok)
    } else if tag == 1 {
        receive_payload(payload, next, sub_err, err)
    } else {
        return Received::Failed(ReceiveError::InvalidResult);
    };
    match received {
        Received::Done(value, next) => {
            let v: Val = if tag == 0 {
                Val::Result(Ok(value))
            } else {
                Val::Result(Err(value))
            };
            proof {
                lemma_model(v);
            }
            Received::Done(v, next)
        },
        Received::Incomplete => Received::Incomplete,
        Received::Resource(ty, at, sub) => Received::Resource(ty, at, sub),
        Received::Failed(e) => Received::Failed(e),
    }
}

/// The subscription in the box.
fn unbox_sub<T>(sub: &Option<Box<AsyncSubscription<T>>>) -> (r: Option<&AsyncSubscription<T>>)
    ensures
        sub_ref_model(r) == unboxed(boxed_sub_model(*sub)),
{
    match sub {
        Some(sub) => Some(&**sub),
        None => None,
    }
}

/// Decodes a list, whose type is `ty`.
fn receive_list<'a, T>(
    payload: &[u8],
    at: usize,
    sub: Option<&'a AsyncSubscription<T>>,
    ty: &Type,
) -> (r: Received<'a, Vec<Val>, T>)
    requires
        ty is List,
    ensures
        map_outcome(outcomes(r), |vs: Seq<ValModel>| ValModel::List(vs)) == receive(
            *ty,
            sub_ref_model(sub),
            payload@,
            at as int,
        ),
    decreases ty, 0nat, 1nat,
{
    if let Some(sub) = sub {
        reveal_with_fuel(AsyncSubscription::model, 2);
        return Received::Failed(
            match sub {
                AsyncSubscription::List(sub) => match &**sub {
                    AsyncSubscription::List(_) => ReceiveError::DemultiplexList,
                    AsyncSubscription::Stream { .. } => ReceiveError::DemultiplexStream,
                    _ => ReceiveError::DemultiplexOther,
                },
                _ => ReceiveError::ListSubscription,
            },
        );
    }
    match receive_list_header(payload, at) {
        Scanned::Done(n, next) => receive_elements(payload, next, None, ty, n as usize),
        Scanned::Incomplete => Received::Incomplete,
        Scanned::Failed(e) => Received::Failed(e),
    }
}

/// Decodes the value of type `ty` at `at`.
pub fn receive_value<'a, T>(
    payload: &[u8],
    at: usize,
    sub: Option<&'a AsyncSubscription<T>>,
    ty: &Type,
) -> (r: Received<'a, Val, T>)
    ensures
        outcome(r) == receive(*ty, sub_ref_model(sub), payload@, at as int),
    decreases ty, 1nat, 0nat,
{
    match ty {
        Type::List(_) => match receive_list(payload, at, sub, ty) {
            Received::Done(vs, next) => {
                let v: Val = Val::List(vs);
                proof {
                    lemma_model(v);
                }
                Received::Done(v, next)
            },
            Received::Incomplete => Received::Incomplete,
            Received::Resource(ty, at, sub) => Received::Resource(ty, at, sub),
            Received::Failed(e) => Received::Failed(e),
        },
        Type::Record(_) => receive_record(payload, at, sub, ty),
        Type::Tuple(_) => receive_tuple(payload, at, sub, ty),
        Type::Variant(_) => receive_variant(payload, at, sub, ty),
        Type::Option(_) => receive_option(payload, at, sub, ty),
        Type::Result { .. } => receive_result(payload, at, sub, ty),
        Type::Own(ty) => Received::Resource(*ty, at, sub),
        Type::Borrow(ty) => Received::Resource(*ty, at, sub),
        _ => match receive_plain(payload, at, ty) {
            Scanned::Done(v, next) => Received::Done(v, next),
            Scanned::Incomplete => Received::Incomplete,
            Scanned::Failed(e) => Received::Failed(e),
        },
    }
}

} // verus!
