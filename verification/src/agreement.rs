//! How decoding and the subscriptions made for a type agree.
use vstd::prelude::*;

use crate::receive::{elements, plain_at, receive, sub_at, unboxed, Outcome};
use crate::primitive::{discriminant_at, list_header_at};
use crate::scan::{ReceiveError, Scan};
use crate::subscribe::{
    lemma_part_resources, lemma_part_subs_len, listed_requests, listed_resources, listed_subs,
    part_requests, part_resources, part_subs, present, requests, resources, subscribed, unless_none,
};
use crate::subscription::SubModel;
use crate::value::Type;

verus! {

/// Whether a subscription has the shape of a type.
pub open spec fn fits<T>(sub: Option<SubModel<T>>, ty: Type) -> bool
    decreases ty,
{
    match sub {
        None => true,
        Some(sub) => match ty {
            Type::List(element) => match sub {
                SubModel::List(sub) => fits(Some(*sub), *element),
                _ => false,
            },
            Type::Option(some) => match sub {
                SubModel::Option(sub) => fits(Some(*sub), *some),
                _ => false,
            },
            Type::Record(fields) => match sub {
                SubModel::Record(subs) => forall|i: int|
                    0 <= i < fields@.len() ==> fits(
                        #[trigger] sub_at(Some(subs), i),
                        fields@[i].ty,
                    ),
                _ => false,
            },
            Type::Tuple(types) => match sub {
                SubModel::Tuple(subs) => forall|i: int|
                    0 <= i < types@.len() ==> fits(#[trigger] sub_at(Some(subs), i), types@[i]),
                _ => false,
            },
            Type::Variant(cases) => match sub {
                SubModel::Variant(subs) => forall|i: int|
                    0 <= i < cases@.len() && cases@[i].ty is Some ==> fits(
                        #[trigger] sub_at(Some(subs), i),
                        cases@[i].ty->0,
                    ),
                _ => false,
            },
            Type::Result { ok: ok_ty, err: err_ty } => match sub {
                SubModel::Result { ok, err } => {
                    &&& ok_ty matches Some(ty) ==> fits(unboxed(ok), *ty)
                    &&& err_ty matches Some(ty) ==> fits(unboxed(err), *ty)
                },
                _ => false,
            },
            Type::Own(_) | Type::Borrow(_) => true,
            _ => false,
        },
    }
}

/// Whether a subscription was found to be of another kind than the value.
pub open spec fn is_mismatch(e: ReceiveError) -> bool {
    match e {
        ReceiveError::ListSubscription
        | ReceiveError::RecordSubscription
        | ReceiveError::TupleSubscription
        | ReceiveError::VariantSubscription
        | ReceiveError::OptionSubscription
        | ReceiveError::ResultSubscription => true,
        _ => false,
    }
}

/// Whether a list could not be decoded for the subscription of its elements.
pub open spec fn is_demultiplex(e: ReceiveError) -> bool {
    match e {
        ReceiveError::DemultiplexList
        | ReceiveError::DemultiplexStream
        | ReceiveError::DemultiplexOther => true,
        _ => false,
    }
}

proof fn lemma_part_fits<T>(parent: Type, replies: Seq<Option<SubModel<T>>>, n: nat, i: int)
    requires
        0 <= i < n <= parent.arity(),
    ensures
        parent.part(i) matches Some(ty) ==> fits(part_subs(parent, replies, n)[i], ty),
    decreases parent, 0nat, n,
{
    lemma_part_subs_len(parent, replies, (n - 1) as nat);
    if i == n - 1 {
        if let Some(ty) = parent.part(i) {
            subscribed_fits(
                ty,
                replies.skip(part_resources(parent, (n - 1) as nat) as int),
            );
        }
    } else {
        lemma_part_fits(parent, replies, (n - 1) as nat, i);
    }
}

/// What is subscribed for a type has the shape of that type.
pub proof fn subscribed_fits<T>(ty: Type, replies: Seq<Option<SubModel<T>>>)
    ensures
        fits(subscribed(ty, replies), ty),
    decreases ty, 1nat, 0nat,
{
    match ty {
        Type::List(element) => subscribed_fits(*element, replies),
        Type::Option(some) => subscribed_fits(*some, replies),
        Type::Record(_) | Type::Tuple(_) | Type::Variant(_) | Type::Result { .. } => {
            let subs = part_subs(ty, replies, ty.arity());
            lemma_part_subs_len(ty, replies, ty.arity());
            assert forall|i: int| 0 <= i < ty.arity() implies (ty.part(i) matches Some(t)
                ==> fits(#[trigger] sub_at(Some(subs), i), t)) by {
                lemma_part_fits(ty, replies, ty.arity(), i);
            }
            assert(sub_at(Some(subs), 0) == subs[0] || ty.arity() == 0);
            assert(sub_at(Some(subs), 1) == subs[1] || ty.arity() < 2);
        },
        _ => {},
    }
}

proof fn lemma_plain_errors(ty: Type, b: Seq<u8>, at: int)
    ensures
        plain_at(ty, b, at) matches Scan::Failed(e) ==> !is_mismatch(e) && !is_demultiplex(e),
{
}

proof fn lemma_elements_match<T>(
    parent: Type,
    subs: Option<Seq<Option<SubModel<T>>>>,
    b: Seq<u8>,
    at: int,
    n: nat,
)
    requires
        forall|i: int|
            0 <= i < n && parent.has_element(i) ==> fits(
                #[trigger] sub_at(subs, i),
                parent.element(i),
            ),
    ensures
        elements(parent, subs, b, at, n) matches Outcome::Failed(e) ==> !is_mismatch(e),
    decreases parent, 0nat, n,
{
    if n > 0 {
        lemma_elements_match(parent, subs, b, at, (n - 1) as nat);
        if let Outcome::Done(_, next) = elements(parent, subs, b, at, (n - 1) as nat) {
            let sub = sub_at(subs, n - 1);
            match parent {
                Type::List(ty) => fitting_subscription_matches(*ty, sub, b, next),
                Type::Record(fields) => if n <= fields@.len() {
                    fitting_subscription_matches(fields@[n - 1].ty, sub, b, next);
                },
                Type::Tuple(types) => if n <= types@.len() {
                    fitting_subscription_matches(types@[n - 1], sub, b, next);
                },
                _ => {},
            }
        }
    }
}

/// A value is never refused for the kind of a subscription that has the shape of its type.
pub proof fn fitting_subscription_matches<T>(
    ty: Type,
    sub: Option<SubModel<T>>,
    b: Seq<u8>,
    at: int,
)
    requires
        fits(sub, ty),
    ensures
        receive(ty, sub, b, at) matches Outcome::Failed(e) ==> !is_mismatch(e),
    decreases ty, 1nat, 0nat,
{
    match ty {
        Type::List(_) => {
            if let Scan::Done(n, next) = list_header_at(b, at) {
                lemma_elements_match::<T>(ty, None, b, next, n as nat);
            }
        },
        Type::Record(fields) => {
            if let Some(SubModel::Record(subs)) = sub {
                lemma_elements_match(ty, Some(subs), b, at, fields@.len());
            } else {
                lemma_elements_match::<T>(ty, None, b, at, fields@.len());
            }
        },
        Type::Tuple(types) => {
            if let Some(SubModel::Tuple(subs)) = sub {
                lemma_elements_match(ty, Some(subs), b, at, types@.len());
            } else {
                lemma_elements_match::<T>(ty, None, b, at, types@.len());
            }
        },
        Type::Variant(cases) => {
            if let Scan::Done(i, next) = discriminant_at(b, at) {
                if i < cases@.len() {
                    if let Some(case) = cases@[i as int].ty {
                        let subs = match sub {
                            Some(SubModel::Variant(subs)) => Some(subs),
                            _ => None,
                        };
                        assert(fits(sub_at(subs, i as int), case));
                        fitting_subscription_matches(case, sub_at(subs, i as int), b, next);
                    }
                }
            }
        },
        Type::Option(some) => {
            if let Some(SubModel::Option(sub)) = sub {
                fitting_subscription_matches(*some, Some(*sub), b, at + 1);
            } else {
                fitting_subscription_matches::<T>(*some, None, b, at + 1);
            }
        },
        Type::Result { ok, err } => {
            let (sub_ok, sub_err) = match sub {
                Some(SubModel::Result { ok, err }) => (unboxed(ok), unboxed(err)),
                _ => (None, None),
            };
            if let Some(ty) = ok {
                fitting_subscription_matches(*ty, sub_ok, b, at + 1);
            }
            if let Some(ty) = err {
                fitting_subscription_matches(*ty, sub_err, b, at + 1);
            }
        },
        _ => lemma_plain_errors(ty, b, at),
    }
}

/// What is subscribed for a type never makes a value of that type be refused for the kind of a
/// subscription.
pub proof fn subscribed_matches<T>(
    ty: Type,
    replies: Seq<Option<SubModel<T>>>,
    b: Seq<u8>,
    at: int,
)
    ensures
        receive(ty, subscribed(ty, replies), b, at) matches Outcome::Failed(e) ==> !is_mismatch(e),
{
    subscribed_fits(ty, replies);
    fitting_subscription_matches(ty, subscribed(ty, replies), b, at);
}

/// A list that is subscribed for is refused, whatever the payload holds.
pub proof fn subscribed_list_is_refused<T>(
    ty: Type,
    replies: Seq<Option<SubModel<T>>>,
    b: Seq<u8>,
    at: int,
)
    requires
        ty is List,
        subscribed(ty, replies) is Some,
    ensures
        receive(ty, subscribed(ty, replies), b, at) matches Outcome::Failed(e)
            && is_demultiplex(e),
{
}

proof fn lemma_elements_without<T>(
    parent: Type,
    subs: Option<Seq<Option<SubModel<T>>>>,
    b: Seq<u8>,
    at: int,
    n: nat,
)
    ensures
        elements(parent, subs, b, at, n) is Done ==> elements::<T>(parent, None, b, at, n)
            == elements(parent, subs, b, at, n),
    decreases parent, 0nat, n,
{
    if n > 0 {
        lemma_elements_without(parent, subs, b, at, (n - 1) as nat);
        if let Outcome::Done(_, next) = elements(parent, subs, b, at, (n - 1) as nat) {
            let sub = sub_at(subs, n - 1);
            match parent {
                Type::List(ty) => value_without_subscription(*ty, sub, b, next),
                Type::Record(fields) => if n <= fields@.len() {
                    value_without_subscription(fields@[n - 1].ty, sub, b, next);
                },
                Type::Tuple(types) => if n <= types@.len() {
                    value_without_subscription(types@[n - 1], sub, b, next);
                },
                _ => {},
            }
        }
    }
}

/// A value that is decoded with a subscription is decoded without one too, and is the same.
pub proof fn value_without_subscription<T>(
    ty: Type,
    sub: Option<SubModel<T>>,
    b: Seq<u8>,
    at: int,
)
    ensures
        receive(ty, sub, b, at) is Done ==> receive::<T>(ty, None, b, at) == receive(
            ty,
            sub,
            b,
            at,
        ),
    decreases ty, 1nat, 0nat,
{
    match ty {
        Type::Record(fields) => {
            if let Some(SubModel::Record(subs)) = sub {
                lemma_elements_without(ty, Some(subs), b, at, fields@.len());
            }
        },
        Type::Tuple(types) => {
            if let Some(SubModel::Tuple(subs)) = sub {
                lemma_elements_without(ty, Some(subs), b, at, types@.len());
            }
        },
        Type::Variant(cases) => {
            if let Scan::Done(i, next) = discriminant_at(b, at) {
                if i < cases@.len() {
                    if let Some(case) = cases@[i as int].ty {
                        let subs = match sub {
                            Some(SubModel::Variant(subs)) => Some(subs),
                            _ => None,
                        };
                        value_without_subscription(case, sub_at(subs, i as int), b, next);
                    }
                }
            }
        },
        Type::Option(some) => {
            if let Some(SubModel::Option(sub)) = sub {
                value_without_subscription(*some, Some(*sub), b, at + 1);
            }
        },
        Type::Result { ok, err } => {
            if let Some(SubModel::Result { ok: sub_ok, err: sub_err }) = sub {
                if let Some(ty) = ok {
                    value_without_subscription(*ty, unboxed(sub_ok), b, at + 1);
                }
                if let Some(ty) = err {
                    value_without_subscription(*ty, unboxed(sub_err), b, at + 1);
                }
            }
        },
        _ => {},
    }
}

proof fn lemma_elements_are_plain<T>(
    parent: Type,
    subs: Option<Seq<Option<SubModel<T>>>>,
    b: Seq<u8>,
    at: int,
    n: nat,
)
    requires
        resources(parent) == 0,
    ensures
        !(elements(parent, subs, b, at, n) is Resource),
    decreases parent, 0nat, n,
{
    if n > 0 {
        lemma_elements_are_plain(parent, subs, b, at, (n - 1) as nat);
        if let Outcome::Done(_, next) = elements(parent, subs, b, at, (n - 1) as nat) {
            let sub = sub_at(subs, n - 1);
            if !(parent is List) && n <= parent.arity() {
                lemma_part_resources(parent, n, parent.arity());
            }
            match parent {
                Type::List(ty) => no_resource_without_one(*ty, sub, b, next),
                Type::Record(fields) => if n <= fields@.len() {
                    no_resource_without_one(fields@[n - 1].ty, sub, b, next);
                },
                Type::Tuple(types) => if n <= types@.len() {
                    no_resource_without_one(types@[n - 1], sub, b, next);
                },
                _ => {},
            }
        }
    }
}

/// Decoding a type that names no resource never comes upon one.
pub proof fn no_resource_without_one<T>(
    ty: Type,
    sub: Option<SubModel<T>>,
    b: Seq<u8>,
    at: int,
)
    requires
        resources(ty) == 0,
    ensures
        !(receive(ty, sub, b, at) is Resource),
    decreases ty, 1nat, 0nat,
{
    match ty {
        Type::List(_) => {
            if let Scan::Done(n, next) = list_header_at(b, at) {
                lemma_elements_are_plain::<T>(ty, None, b, next, n as nat);
            }
        },
        Type::Record(fields) => {
            lemma_elements_are_plain::<T>(ty, None, b, at, fields@.len());
            if let Some(SubModel::Record(subs)) = sub {
                lemma_elements_are_plain(ty, Some(subs), b, at, fields@.len());
            }
        },
        Type::Tuple(types) => {
            lemma_elements_are_plain::<T>(ty, None, b, at, types@.len());
            if let Some(SubModel::Tuple(subs)) = sub {
                lemma_elements_are_plain(ty, Some(subs), b, at, types@.len());
            }
        },
        Type::Variant(cases) => {
            if let Scan::Done(i, next) = discriminant_at(b, at) {
                if i < cases@.len() {
                    lemma_part_resources(ty, (i + 1) as nat, ty.arity());
                    if let Some(case) = cases@[i as int].ty {
                        let subs = match sub {
                            Some(SubModel::Variant(subs)) => Some(subs),
                            _ => None,
                        };
                        no_resource_without_one(case, sub_at(subs, i as int), b, next);
                    }
                }
            }
        },
        Type::Option(some) => {
            no_resource_without_one::<T>(*some, None, b, at + 1);
            if let Some(SubModel::Option(sub)) = sub {
                no_resource_without_one(*some, Some(*sub), b, at + 1);
            }
        },
        Type::Result { ok, err } => {
            lemma_part_resources(ty, 1, 2);
            lemma_part_resources(ty, 2, 2);
            let (sub_ok, sub_err) = match sub {
                Some(SubModel::Result { ok, err }) => (unboxed(ok), unboxed(err)),
                _ => (None, None),
            };
            if let Some(ty) = ok {
                no_resource_without_one(*ty, sub_ok, b, at + 1);
            }
            if let Some(ty) = err {
                no_resource_without_one(*ty, sub_err, b, at + 1);
            }
        },
        _ => {},
    }
}

proof fn lemma_tuple_parts<T>(types: Vec<Type>, replies: Seq<Option<SubModel<T>>>, n: nat)
    requires
        n <= types@.len(),
    ensures
        part_resources(Type::Tuple(types), n) == listed_resources(present(types@), n),
        part_subs(Type::Tuple(types), replies, n) == listed_subs(present(types@), replies, n),
        part_requests(Type::Tuple(types), Seq::empty(), n) == listed_requests(present(types@), n),
    decreases n,
{
    if n > 0 {
        lemma_tuple_parts(types, replies, (n - 1) as nat);
        assert(Seq::<Option<u64>>::empty().push(Some((n - 1) as u64)) =~= seq![
            Some((n - 1) as u64),
        ]);
    }
}

/// Values that are subscribed for one by one have the requests and the subscriptions that the
/// elements of a tuple of them have.
pub proof fn listed_as_tuple<T>(types: Vec<Type>, replies: Seq<Option<SubModel<T>>>)
    ensures
        requests(Type::Tuple(types), Seq::empty()) == listed_requests(
            present(types@),
            types@.len(),
        ),
        subscribed(Type::Tuple(types), replies) == match unless_none(
            listed_subs(present(types@), replies, types@.len()),
        ) {
            Some(subs) => Some(SubModel::Tuple(subs)),
            None => None,
        },
{
    lemma_tuple_parts(types, replies, types@.len());
}

} // verus!
