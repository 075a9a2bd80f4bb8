//! Subscribing for the asynchronous parts of a value.
//!
//! Only resources are subscribed for. A value's type fixes at which subjects, below the subject of
//! the value, that is to be done: [`resource_requests`] lists them. [`subscribe_component_async`]
//! then puts what came back, in the order of that list, in its place.
use std::collections::VecDeque;

use vstd::prelude::*;

use crate::subscription::{
    boxed_sub_model, sub_model, subs_model, subs_model_of, AsyncSubscription, SubModel,
};
use crate::value::Type;

verus! {

/// A resource that has to be subscribed for.
#[derive(Debug, PartialEq, Eq)]
pub struct Request {
    /// The children to descend into, from the subject that the value itself has.
    pub path: Vec<Option<u64>>,
    /// The type of the resource.
    pub resource: u32,
}

/// The mathematical content of a [`Request`].
pub struct RequestModel {
    pub path: Seq<Option<u64>>,
    pub resource: u32,
}

impl View for Request {
    type V = RequestModel;

    open spec fn view(&self) -> RequestModel {
        RequestModel { path: self.path@, resource: self.resource }
    }
}

/// The content of each request.
pub open spec fn requests_model(requests: Seq<Request>) -> Seq<RequestModel> {
    Seq::new(requests.len(), |i: int| requests[i]@)
}

impl Type {
    /// The number of parts that are subscribed for together.
    pub open spec fn arity(self) -> nat {
        match self {
            Type::Record(fields) => fields@.len(),
            Type::Tuple(types) => types@.len(),
            Type::Variant(cases) => cases@.len(),
            Type::Result { .. } => 2,
            _ => 0,
        }
    }

    /// The type of part `i`, where there is one.
    pub open spec fn part(self, i: int) -> Option<Type> {
        match self {
            Type::Record(fields) => Some(fields@[i].ty),
            Type::Tuple(types) => Some(types@[i]),
            Type::Variant(cases) => cases@[i].ty,
            Type::Result { ok, err } => match if i == 0 {
                ok
            } else {
                err
            } {
                Some(ty) => Some(*ty),
                None => None,
            },
            _ => None,
        }
    }

    /// The type of part `i`, where there is one.
    fn part_type(&self, i: usize) -> (ty: Option<&Type>)
        requires
            i < self.arity(),
        ensures
            match ty {
                Some(ty) => self.part(i as int) == Some(*ty) && decreases_to!(self => ty),
                None => self.part(i as int) is None,
            },
    {
        match self {
            Type::Record(fields) => Some(&fields[i].ty),
            Type::Tuple(types) => Some(&types[i]),
            Type::Variant(cases) => cases[i].ty.as_ref(),
            Type::Result { ok, err } => match if i == 0 {
                ok
            } else {
                err
            } {
                Some(ty) => Some(&**ty),
                None => None,
            },
            _ => None,
        }
    }

    /// The number of parts that are subscribed for together.
    fn part_count(&self) -> (n: usize)
        ensures
            n == self.arity(),
    {
        match self {
            Type::Record(fields) => fields.len(),
            Type::Tuple(types) => types.len(),
            Type::Variant(cases) => cases.len(),
            Type::Result { .. } => 2,
            _ => 0,
        }
    }
}

/// The requests for the first `n` parts of a type.
pub open spec fn part_requests(parent: Type, path: Seq<Option<u64>>, n: nat) -> Seq<RequestModel>
    decreases parent, 0nat, n,
{
    if n == 0 || n > parent.arity() {
        Seq::empty()
    } else {
        let before = part_requests(parent, path, (n - 1) as nat);
        match parent.part(n - 1) {
            Some(ty) => before + requests(ty, path.push(Some((n - 1) as u64))),
            None => before,
        }
    }
}

/// What has to be subscribed for, for a value of type `ty` whose subject is at `path`.
pub open spec fn requests(ty: Type, path: Seq<Option<u64>>) -> Seq<RequestModel>
    decreases ty, 1nat, 0nat,
{
    match ty {
        Type::List(element) => requests(*element, path.push(None)),
        Type::Option(some) => requests(*some, path.push(Some(1))),
        Type::Own(resource) | Type::Borrow(resource) => seq![RequestModel { path, resource }],
        _ => part_requests(ty, path, ty.arity()),
    }
}

/// A copy of a path.
fn copy_path(path: &Vec<Option<u64>>) -> (r: Vec<Option<u64>>)
    ensures
        r@ == path@,
{
    let mut r: Vec<Option<u64>> = Vec::new();
    let mut k: usize = 0;
    while k < path.len()
        invariant
            k <= path@.len(),
            r@ == path@.take(k as int),
        decreases path@.len() - k,
    {
        r.push(path[k]);
        k = k + 1;
        assert(path@.take(k as int) =~= path@.take(k - 1).push(path@[k - 1]));
    }
    assert(r@ =~= path@);
    r
}

/// The path of a child.
fn child(path: &Vec<Option<u64>>, i: Option<u64>) -> (r: Vec<Option<u64>>)
    ensures
        r@ == path@.push(i),
{
    let mut r: Vec<Option<u64>> = copy_path(path);
    r.push(i);
    r
}

/// Appends the requests for the parts of a type.
fn push_part_requests(parent: &Type, path: &Vec<Option<u64>>, out: &mut Vec<Request>)
    ensures
        requests_model(final(out)@) == requests_model(old(out)@) + part_requests(
            *parent,
            path@,
            parent.arity(),
        ),
    decreases parent, 0nat,
{
    let n: usize = parent.part_count();
    let mut i: usize = 0;
    assert(requests_model(out@) =~= requests_model(old(out)@) + part_requests(*parent, path@, 0));
    while i < n
        invariant
            i <= n,
            n == parent.arity(),
            requests_model(out@) == requests_model(old(out)@) + part_requests(
                *parent,
                path@,
                i as nat,
            ),
        decreases n - i,
    {
        if let Some(ty) = parent.part_type(i) {
            let path: Vec<Option<u64>> = child(path, Some(i as u64));
            push_requests(ty, &path, out);
        }
        i = i + 1;
        assert(requests_model(out@) =~= requests_model(old(out)@) + part_requests(
            *parent,
            path@,
            i as nat,
        ));
    }
}

/// Appends the requests for a value of type `ty` whose subject is at `path`.
fn push_requests(ty: &Type, path: &Vec<Option<u64>>, out: &mut Vec<Request>)
    ensures
        requests_model(final(out)@) == requests_model(old(out)@) + requests(*ty, path@),
    decreases ty, 1nat,
{
    match ty {
        Type::List(element) => push_requests(element, &child(path, None), out),
        Type::Option(some) => push_requests(some, &child(path, Some(1)), out),
        Type::Own(resource) | Type::Borrow(resource) => {
            out.push(Request { path: copy_path(path), resource: *resource });
            assert(requests_model(out@) =~= requests_model(old(out)@) + requests(*ty, path@));
        },
        _ => push_part_requests(ty, path, out),
    }
}

/// Lists what has to be subscribed for, for a value of type `ty`.
pub fn resource_requests(ty: &Type) -> (r: Vec<Request>)
    ensures
        requests_model(r@) == requests(*ty, Seq::empty()),
{
    let mut r: Vec<Request> = Vec::new();
    push_requests(ty, &Vec::new(), &mut r);
    assert(requests_model(r@) =~= requests(*ty, Seq::empty()));
    r
}

/// The number of resources in the first `n` parts of a type.
pub open spec fn part_resources(parent: Type, n: nat) -> nat
    decreases parent, 0nat, n,
{
    if n == 0 || n > parent.arity() {
        0
    } else {
        part_resources(parent, (n - 1) as nat) + match parent.part(n - 1) {
            Some(ty) => resources(ty),
            None => 0,
        }
    }
}

/// The number of resources that a type names.
pub open spec fn resources(ty: Type) -> nat
    decreases ty, 1nat, 0nat,
{
    match ty {
        Type::List(element) => resources(*element),
        Type::Option(some) => resources(*some),
        Type::Own(_) | Type::Borrow(_) => 1,
        _ => part_resources(ty, ty.arity()),
    }
}

/// The subscriptions of the first `n` parts of a type.
pub open spec fn part_subs<T>(parent: Type, replies: Seq<Option<SubModel<T>>>, n: nat) -> Seq<
    Option<SubModel<T>>,
>
    decreases parent, 0nat, n,
{
    if n == 0 || n > parent.arity() {
        Seq::empty()
    } else {
        let before = part_resources(parent, (n - 1) as nat);
        part_subs(parent, replies, (n - 1) as nat).push(
            match parent.part(n - 1) {
                Some(ty) => subscribed(ty, replies.skip(before as int)),
                None => None,
            },
        )
    }
}

/// Whether there is any subscription.
pub open spec fn any_some<V>(subs: Seq<Option<V>>) -> bool {
    exists|i: int| 0 <= i < subs.len() && (#[trigger] subs[i]) is Some
}

/// The subscription in a box.
pub open spec fn boxed<T>(sub: Option<SubModel<T>>) -> Option<Box<SubModel<T>>> {
    match sub {
        Some(sub) => Some(Box::new(sub)),
        None => None,
    }
}

/// The subscription of a value of type `ty`, of whose resources `replies` come back in order.
pub open spec fn subscribed<T>(ty: Type, replies: Seq<Option<SubModel<T>>>) -> Option<SubModel<T>>
    decreases ty, 1nat, 0nat,
{
    let subs = part_subs(ty, replies, ty.arity());
    match ty {
        Type::List(element) => match subscribed(*element, replies) {
            Some(sub) => Some(SubModel::List(Box::new(sub))),
            None => None,
        },
        Type::Option(some) => match subscribed(*some, replies) {
            Some(sub) => Some(SubModel::Option(Box::new(sub))),
            None => None,
        },
        Type::Own(_) | Type::Borrow(_) => replies[0],
        Type::Record(_) if any_some(subs) => Some(SubModel::Record(subs)),
        Type::Tuple(_) if any_some(subs) => Some(SubModel::Tuple(subs)),
        Type::Variant(_) if any_some(subs) => Some(SubModel::Variant(subs)),
        Type::Result { .. } if any_some(subs) => Some(
            SubModel::Result { ok: boxed(subs[0]), err: boxed(subs[1]) },
        ),
        _ => None,
    }
}

/// Whether any subscription is there.
fn is_any_some<T>(subs: &Vec<Option<AsyncSubscription<T>>>) -> (r: bool)
    ensures
        r == any_some(subs_model(subs@)),
{
    let mut i: usize = 0;
    while i < subs.len()
        invariant
            i <= subs@.len(),
            forall|j: int| 0 <= j < i ==> (#[trigger] subs@[j]) is None,
        decreases subs@.len() - i,
    {
        if subs[i].is_some() {
            assert(subs_model(subs@)[i as int] is Some);
            return true;
        }
        i = i + 1;
    }
    false
}

/// Puts the replies in the place of the parts of a type.
fn subscribe_parts<T>(parent: &Type, replies: &mut VecDeque<Option<AsyncSubscription<T>>>) -> (r:
    Vec<Option<AsyncSubscription<T>>>)
    requires
        part_resources(*parent, parent.arity()) <= old(replies)@.len(),
    ensures
        subs_model(r@) == part_subs(*parent, subs_model(old(replies)@), parent.arity()),
        final(replies)@ == old(replies)@.skip(part_resources(*parent, parent.arity()) as int),
    decreases parent, 0nat,
{
    let n: usize = parent.part_count();
    let mut r: Vec<Option<AsyncSubscription<T>>> = Vec::new();
    assert(subs_model(r@) =~= Seq::empty());
    assert(replies@ =~= old(replies)@.skip(0));
    let mut i: usize = 0;
    while i < n
        invariant
            i <= n,
            n == parent.arity(),
            part_resources(*parent, n as nat) <= old(replies)@.len(),
            subs_model(r@) == part_subs(*parent, subs_model(old(replies)@), i as nat),
            replies@ == old(replies)@.skip(part_resources(*parent, i as nat) as int),
        decreases n - i,
    {
        let ghost before = part_resources(*parent, i as nat);
        proof {
            lemma_part_resources(*parent, i as nat + 1, n as nat);
            assert(subs_model(replies@) =~= subs_model(old(replies)@).skip(before as int));
        }
        let sub: Option<AsyncSubscription<T>> = match parent.part_type(i) {
            Some(ty) => subscribe_component_async(ty, replies),
            None => None,
        };
        let ghost subs = r@;
        r.push(sub);
        i = i + 1;
        assert(subs_model(r@) =~= subs_model(subs).push(sub_model(sub)));
        assert(replies@ =~= old(replies)@.skip(part_resources(*parent, i as nat) as int));
    }
    r
}

/// Boxes a subscription.
fn boxed_sub<T>(sub: Option<AsyncSubscription<T>>) -> (r: Option<Box<AsyncSubscription<T>>>)
    ensures
        boxed_sub_model(r) == boxed(sub_model(sub)),
{
    match sub {
        Some(sub) => Some(Box::new(sub)),
        None => None,
    }
}

/// Every part has its place.
pub proof fn lemma_part_subs_len<T>(parent: Type, replies: Seq<Option<SubModel<T>>>, n: nat)
    requires
        n <= parent.arity(),
    ensures
        part_subs(parent, replies, n).len() == n,
    decreases n,
{
    if n > 0 {
        lemma_part_subs_len(parent, replies, (n - 1) as nat);
    }
}

/// Parts have no more resources than more parts do.
pub proof fn lemma_part_resources(parent: Type, k: nat, n: nat)
    requires
        k <= n <= parent.arity(),
    ensures
        part_resources(parent, k) <= part_resources(parent, n),
    decreases n,
{
    if k < n {
        lemma_part_resources(parent, k, (n - 1) as nat);
    }
}

/// Puts the replies for the resources of a value of type `ty` in their place.
pub fn subscribe_component_async<T>(
    ty: &Type,
    replies: &mut VecDeque<Option<AsyncSubscription<T>>>,
) -> (r: Option<AsyncSubscription<T>>)
    requires
        resources(*ty) <= old(replies)@.len(),
    ensures
        sub_model(r) == subscribed(*ty, subs_model(old(replies)@)),
        r is Some <==> subscribed(*ty, subs_model(old(replies)@)) is Some,
        r matches Some(sub) ==> subscribed(*ty, subs_model(old(replies)@)) == Some(sub@),
        final(replies)@ == old(replies)@.skip(resources(*ty) as int),
    decreases ty, 1nat,
{
    match ty {
        Type::List(element) => match subscribe_component_async(element, replies) {
            Some(sub) => Some(AsyncSubscription::List(Box::new(sub))),
            None => None,
        },
        Type::Option(some) => match subscribe_component_async(some, replies) {
            Some(sub) => Some(AsyncSubscription::Option(Box::new(sub))),
            None => None,
        },
        Type::Own(_) | Type::Borrow(_) => match replies.pop_front() {
            Some(sub) => sub,
            None => None,
        },
        Type::Record(_) => {
            let subs: Vec<Option<AsyncSubscription<T>>> = subscribe_parts(ty, replies);
            if is_any_some(&subs) {
                assert(subs_model_of(subs) =~= subs_model(subs@));
                Some(AsyncSubscription::Record(subs))
            } else {
                None
            }
        },
        Type::Tuple(_) => {
            let subs: Vec<Option<AsyncSubscription<T>>> = subscribe_parts(ty, replies);
            if is_any_some(&subs) {
                assert(subs_model_of(subs) =~= subs_model(subs@));
                Some(AsyncSubscription::Tuple(subs))
            } else {
                None
            }
        },
        Type::Variant(_) => {
            let subs: Vec<Option<AsyncSubscription<T>>> = subscribe_parts(ty, replies);
            if is_any_some(&subs) {
                assert(subs_model_of(subs) =~= subs_model(subs@));
                Some(AsyncSubscription::Variant(subs))
            } else {
                None
            }
        },
        Type::Result { .. } => {
            let mut subs: Vec<Option<AsyncSubscription<T>>> = subscribe_parts(ty, replies);
            if is_any_some(&subs) {
                let ghost model = subs_model(subs@);
                proof {
                    lemma_part_subs_len(*ty, subs_model(old(replies)@), 2);
                    assert(model[0] == sub_model(subs@[0]) && model[1] == sub_model(subs@[1]));
                }
                let err: Option<AsyncSubscription<T>> = match subs.pop() {
                    Some(sub) => sub,
                    None => None,
                };
                let ok: Option<AsyncSubscription<T>> = match subs.pop() {
                    Some(sub) => sub,
                    None => None,
                };
                Some(AsyncSubscription::Result { ok: boxed_sub(ok), err: boxed_sub(err) })
            } else {
                None
            }
        },
        _ => {
            assert(part_resources(*ty, 0) == 0);
            None
        },
    }
}

/// The types, each of which is there.
pub open spec fn present(types: Seq<Type>) -> Seq<Option<Type>> {
    Seq::new(types.len(), |i: int| Some(types[i]))
}

/// The types that are borrowed, each of which is there.
pub open spec fn present_refs(types: Seq<&Type>) -> Seq<Option<Type>> {
    Seq::new(types.len(), |i: int| Some(*types[i]))
}

/// The types that are borrowed, where there are any.
pub open spec fn optional_refs(types: Seq<Option<&Type>>) -> Seq<Option<Type>> {
    Seq::new(
        types.len(),
        |i: int|
            match types[i] {
                Some(ty) => Some(*ty),
                None => None,
            },
    )
}

/// The number of resources in the first `n` types.
pub open spec fn listed_resources(types: Seq<Option<Type>>, n: nat) -> nat
    decreases n,
{
    if n == 0 {
        0
    } else {
        listed_resources(types, (n - 1) as nat) + match types[n - 1] {
            Some(ty) => resources(ty),
            None => 0,
        }
    }
}

/// The subscriptions of values of the first `n` types.
pub open spec fn listed_subs<T>(
    types: Seq<Option<Type>>,
    replies: Seq<Option<SubModel<T>>>,
    n: nat,
) -> Seq<Option<SubModel<T>>>
    decreases n,
{
    if n == 0 {
        Seq::empty()
    } else {
        let before = listed_resources(types, (n - 1) as nat);
        listed_subs(types, replies, (n - 1) as nat).push(
            match types[n - 1] {
                Some(ty) => subscribed(ty, replies.skip(before as int)),
                None => None,
            },
        )
    }
}

/// What has to be subscribed for, for values of the first `n` types.
pub open spec fn listed_requests(types: Seq<Option<Type>>, n: nat) -> Seq<RequestModel>
    decreases n,
{
    if n == 0 {
        Seq::empty()
    } else {
        let before = listed_requests(types, (n - 1) as nat);
        match types[n - 1] {
            Some(ty) => before + requests(ty, seq![Some((n - 1) as u64)]),
            None => before,
        }
    }
}

/// The subscriptions, unless there are none.
pub open spec fn unless_none<V>(subs: Seq<Option<V>>) -> Option<Seq<Option<V>>> {
    if any_some(subs) {
        Some(subs)
    } else {
        None
    }
}

/// The content of subscriptions that may not be there.
pub open spec fn subs_option_model<T>(subs: Option<Vec<Option<AsyncSubscription<T>>>>) -> Option<
    Seq<Option<SubModel<T>>>,
> {
    match subs {
        Some(subs) => Some(subs_model(subs@)),
        None => None,
    }
}

/// The content of an array of subscriptions that may not be there.
pub open spec fn subs_array_model<T, const N: usize>(
    subs: Option<[Option<AsyncSubscription<T>>; N]>,
) -> Option<Seq<Option<SubModel<T>>>> {
    match subs {
        Some(subs) => Some(subs_model(subs@)),
        None => None,
    }
}

proof fn lemma_listed_resources(types: Seq<Option<Type>>, k: nat, n: nat)
    requires
        k <= n,
    ensures
        listed_resources(types, k) <= listed_resources(types, n),
    decreases n,
{
    if k < n {
        lemma_listed_resources(types, k, (n - 1) as nat);
    }
}

/// Lists what has to be subscribed for, for values of the types that are there, the subject of
/// each of which is the child of its index.
pub fn listed_resource_requests(types: &[Option<&Type>]) -> (r: Vec<Request>)
    ensures
        requests_model(r@) == listed_requests(optional_refs(types@), types@.len()),
{
    let mut r: Vec<Request> = Vec::new();
    let mut i: usize = 0;
    assert(requests_model(r@) =~= Seq::empty());
    while i < types.len()
        invariant
            i <= types@.len(),
            requests_model(r@) == listed_requests(optional_refs(types@), i as nat),
        decreases types@.len() - i,
    {
        if let Some(ty) = types[i] {
            let path: Vec<Option<u64>> = child(&Vec::new(), Some(i as u64));
            assert(path@ =~= seq![Some(i as u64)]);
            push_requests(ty, &path, &mut r);
        }
        i = i + 1;
    }
    r
}

/// Puts the replies in the place of values of the types that are there.
pub fn subscribe_component_async_iter_optional<T>(
    types: &[Option<&Type>],
    replies: &mut VecDeque<Option<AsyncSubscription<T>>>,
) -> (r: Option<Vec<Option<AsyncSubscription<T>>>>)
    requires
        listed_resources(optional_refs(types@), types@.len()) <= old(replies)@.len(),
    ensures
        subs_option_model(r) == unless_none(
            listed_subs(optional_refs(types@), subs_model(old(replies)@), types@.len()),
        ),
        r is Some <==> exists|i: int|
            0 <= i < types@.len() && (#[trigger] listed_subs(
                optional_refs(types@),
                subs_model(old(replies)@),
                types@.len(),
            )[i]) is Some,
        r matches Some(subs) ==> subs@.len() == types@.len() && forall|i: int|
            0 <= i < types@.len() ==> #[trigger] sub_model(subs@[i]) == listed_subs(
                optional_refs(types@),
                subs_model(old(replies)@),
                types@.len(),
            )[i],
        final(replies)@ == old(replies)@.skip(
            listed_resources(optional_refs(types@), types@.len()) as int,
        ),
{
    let ghost listed = optional_refs(types@);
    let mut r: Vec<Option<AsyncSubscription<T>>> = Vec::new();
    assert(subs_model(r@) =~= Seq::empty());
    assert(replies@ =~= old(replies)@.skip(0));
    let mut i: usize = 0;
    while i < types.len()
        invariant
            i <= types@.len(),
            listed == optional_refs(types@),
            listed_resources(listed, types@.len()) <= old(replies)@.len(),
            subs_model(r@) == listed_subs(listed, subs_model(old(replies)@), i as nat),
            replies@ == old(replies)@.skip(listed_resources(listed, i as nat) as int),
        decreases types@.len() - i,
    {
        let ghost before = listed_resources(listed, i as nat);
        proof {
            lemma_listed_resources(listed, i as nat + 1, types@.len());
            assert(subs_model(replies@) =~= subs_model(old(replies)@).skip(before as int));
        }
        let sub: Option<AsyncSubscription<T>> = match types[i] {
            Some(ty) => subscribe_component_async(ty, replies),
            None => None,
        };
        let ghost subs = r@;
        r.push(sub);
        i = i + 1;
        assert(subs_model(r@) =~= subs_model(subs).push(sub_model(sub)));
        assert(replies@ =~= old(replies)@.skip(listed_resources(listed, i as nat) as int));
    }
    proof {
        lemma_listed_subs_len(listed, subs_model(old(replies)@), types@.len());
        assert(subs_model(r@).len() == r@.len());
        assert forall|i: int| 0 <= i < types@.len() implies #[trigger] sub_model(r@[i])
            == listed_subs(listed, subs_model(old(replies)@), types@.len())[i] by {
            assert(subs_model(r@)[i] == sub_model(r@[i]));
        }
    }
    if is_any_some(&r) {
        Some(r)
    } else {
        None
    }
}

/// Borrows each type.
pub fn all_present(types: &[Type]) -> (r: Vec<Option<&Type>>)
    ensures
        optional_refs(r@) == present(types@),
        r@.len() == types@.len(),
        forall|i: int| 0 <= i < r@.len() ==> #[trigger] r@[i] == Some(&types@[i]),
{
    let mut r: Vec<Option<&Type>> = Vec::new();
    let mut i: usize = 0;
    while i < types.len()
        invariant
            i <= types@.len(),
            r@.len() == i,
            forall|j: int| 0 <= j < i ==> #[trigger] r@[j] == Some(&types@[j]),
        decreases types@.len() - i,
    {
        r.push(Some(&types[i]));
        i = i + 1;
    }
    assert(optional_refs(r@) =~= present(types@));
    r
}

/// Puts the replies in the place of values of the types.
pub fn subscribe_component_async_iter<T>(
    types: &[Type],
    replies: &mut VecDeque<Option<AsyncSubscription<T>>>,
) -> (r: Option<Vec<Option<AsyncSubscription<T>>>>)
    requires
        listed_resources(present(types@), types@.len()) <= old(replies)@.len(),
    ensures
        subs_option_model(r) == unless_none(
            listed_subs(present(types@), subs_model(old(replies)@), types@.len()),
        ),
        r is Some <==> exists|i: int|
            0 <= i < types@.len() && (#[trigger] listed_subs(
                present(types@),
                subs_model(old(replies)@),
                types@.len(),
            )[i]) is Some,
        r matches Some(subs) ==> subs@.len() == types@.len() && forall|i: int|
            0 <= i < types@.len() ==> #[trigger] sub_model(subs@[i]) == listed_subs(
                present(types@),
                subs_model(old(replies)@),
                types@.len(),
            )[i],
        final(replies)@ == old(replies)@.skip(
            listed_resources(present(types@), types@.len()) as int,
        ),
{
    let listed: Vec<Option<&Type>> = all_present(types);
    assert(optional_refs(listed@).len() == types@.len());
    subscribe_component_async_iter_optional(listed.as_slice(), replies)
}

/// Calls the conversion of a [`Vec`] to an array, which keeps the elements in order and succeeds
/// if and only if the lengths are the same.
#[verifier::external_body]
pub(crate) fn into_array<V, const N: usize>(v: Vec<V>) -> (r: Option<[V; N]>)
    ensures
        r is Some <==> v@.len() == N,
        r matches Some(array) ==> array@ == v@,
{
    <[V; N]>::try_from(v).ok()
}

/// Puts the replies in the place of values of the types that are there, as many as the array has
/// room for.
pub fn subscribe_component_async_array_optional<T, const N: usize>(
    types: [Option<&Type>; N],
    replies: &mut VecDeque<Option<AsyncSubscription<T>>>,
) -> (r: Option<[Option<AsyncSubscription<T>>; N]>)
    requires
        listed_resources(optional_refs(types@), N as nat) <= old(replies)@.len(),
    ensures
        subs_array_model(r) == unless_none(
            listed_subs(optional_refs(types@), subs_model(old(replies)@), N as nat),
        ),
        r is Some <==> exists|i: int|
            0 <= i < N as nat && (#[trigger] listed_subs(
                optional_refs(types@),
                subs_model(old(replies)@),
                N as nat,
            )[i]) is Some,
        r matches Some(subs) ==> subs@.len() == N as nat && forall|i: int|
            0 <= i < N as nat ==> #[trigger] sub_model(subs@[i]) == listed_subs(
                optional_refs(types@),
                subs_model(old(replies)@),
                N as nat,
            )[i],
        final(replies)@ == old(replies)@.skip(
            listed_resources(optional_refs(types@), N as nat) as int,
        ),
{
    match subscribe_component_async_iter_optional(types.as_slice(), replies) {
        Some(subs) => {
            proof {
                lemma_listed_subs_len(optional_refs(types@), subs_model(old(replies)@), N as nat);
                assert(subs@.len() == subs_model(subs@).len());
            }
            into_array(subs)
        },
        None => None,
    }
}

/// Every type has its place.
pub proof fn lemma_listed_subs_len<T>(
    types: Seq<Option<Type>>,
    replies: Seq<Option<SubModel<T>>>,
    n: nat,
)
    ensures
        listed_subs(types, replies, n).len() == n,
    decreases n,
{
    if n > 0 {
        lemma_listed_subs_len(types, replies, (n - 1) as nat);
    }
}

/// Puts the replies in the place of values of the types.
pub fn subscribe_component_async_array<T, const N: usize>(
    types: [&Type; N],
    replies: &mut VecDeque<Option<AsyncSubscription<T>>>,
) -> (r: Option<[Option<AsyncSubscription<T>>; N]>)
    requires
        listed_resources(present_refs(types@), N as nat) <= old(replies)@.len(),
    ensures
        subs_array_model(r) == unless_none(
            listed_subs(present_refs(types@), subs_model(old(replies)@), N as nat),
        ),
        r is Some <==> exists|i: int|
            0 <= i < N as nat && (#[trigger] listed_subs(
                present_refs(types@),
                subs_model(old(replies)@),
                N as nat,
            )[i]) is Some,
        r matches Some(subs) ==> subs@.len() == N as nat && forall|i: int|
            0 <= i < N as nat ==> #[trigger] sub_model(subs@[i]) == listed_subs(
                present_refs(types@),
                subs_model(old(replies)@),
                N as nat,
            )[i],
        final(replies)@ == old(replies)@.skip(
            listed_resources(present_refs(types@), N as nat) as int,
        ),
{
    let mut listed: Vec<Option<&Type>> = Vec::new();
    let mut i: usize = 0;
    while i < N
        invariant
            i <= N,
            types@.len() == N,
            listed@.len() == i,
            forall|j: int| 0 <= j < i ==> #[trigger] listed@[j] == Some(types@[j]),
        decreases N - i,
    {
        listed.push(Some(types[i]));
        i = i + 1;
    }
    assert(optional_refs(listed@) =~= present_refs(types@));
    match into_array::<Option<&Type>, N>(listed) {
        Some(listed) => subscribe_component_async_array_optional(listed, replies),
        None => None,
    }
}

} // verus!
