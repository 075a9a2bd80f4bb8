//! Where the replies to requests end up.
use vstd::prelude::*;

use crate::subscribe::{
    any_some, boxed, lemma_listed_subs_len, lemma_part_subs_len, listed_requests,
    listed_resource_requests, listed_resources, listed_subs, optional_refs, part_requests,
    part_resources, part_subs, present, present_refs, requests, requests_model, resource_requests,
    resources, subscribed, unless_none, Request, RequestModel,
};
use crate::subscription::SubModel;
use crate::value::{Case, Field, Type};

verus! {

proof fn lemma_part_request_count(parent: Type, path: Seq<Option<u64>>, n: nat)
    ensures
        part_requests(parent, path, n).len() == part_resources(parent, n),
    decreases parent, 0nat, n,
{
    if 0 < n <= parent.arity() {
        lemma_part_request_count(parent, path, (n - 1) as nat);
        if let Some(ty) = parent.part(n - 1) {
            request_count(ty, path.push(Some((n - 1) as u64)));
        }
    }
}

/// There is one request for each resource that a type names, and none for a type that names none.
pub proof fn request_count(ty: Type, path: Seq<Option<u64>>)
    ensures
        requests(ty, path).len() == resources(ty),
    decreases ty, 1nat, 0nat,
{
    match ty {
        Type::List(element) => request_count(*element, path.push(None)),
        Type::Option(some) => request_count(*some, path.push(Some(1))),
        Type::Own(_) | Type::Borrow(_) => {},
        _ => lemma_part_request_count(ty, path, ty.arity()),
    }
}

/// Whether every request is made below `path`.
pub open spec fn all_below(requests: Seq<RequestModel>, path: Seq<Option<u64>>) -> bool {
    forall|i: int| 0 <= i < requests.len() ==> path.is_prefix_of((#[trigger] requests[i]).path)
}

/// Whether no two requests are made for the same subject.
pub open spec fn all_distinct(requests: Seq<RequestModel>) -> bool {
    forall|i: int, j: int|
        0 <= i < j < requests.len() ==> (#[trigger] requests[i]).path != (
        #[trigger] requests[j]).path
}

/// Whether every request is made below one of the first `n` children of `path`.
spec fn all_below_children(requests: Seq<RequestModel>, path: Seq<Option<u64>>, n: nat) -> bool {
    forall|i: int|
        #![trigger requests[i]]
        0 <= i < requests.len() ==> {
            &&& path.len() < requests[i].path.len()
            &&& path.is_prefix_of(requests[i].path)
            &&& requests[i].path[path.len() as int] matches Some(child) && child < n
        }
}

proof fn lemma_arity(ty: Type)
    ensures
        ty.arity() <= usize::MAX,
{
    match ty {
        Type::Record(fields) => assert(fields.len() == fields@.len()),
        Type::Tuple(types) => assert(types.len() == types@.len()),
        Type::Variant(cases) => assert(cases.len() == cases@.len()),
        _ => {},
    }
}

proof fn lemma_part_requests_distinct(parent: Type, path: Seq<Option<u64>>, n: nat)
    requires
        n <= parent.arity(),
    ensures
        all_below_children(part_requests(parent, path, n), path, n),
        all_distinct(part_requests(parent, path, n)),
    decreases parent, 0nat, n,
{
    lemma_arity(parent);
    if n > 0 {
        lemma_part_requests_distinct(parent, path, (n - 1) as nat);
        let before = part_requests(parent, path, (n - 1) as nat);
        if let Some(ty) = parent.part(n - 1) {
            let child = path.push(Some((n - 1) as u64));
            let more = requests(ty, child);
            requests_distinct(ty, child);
            let all = before + more;
            assert forall|i: int| 0 <= i < all.len() implies {
                &&& path.len() < (#[trigger] all[i]).path.len()
                &&& path.is_prefix_of(all[i].path)
                &&& all[i].path[path.len() as int] matches Some(child) && child < n
                &&& i >= before.len() ==> all[i].path[path.len() as int] == Some((n - 1) as u64)
            } by {
                if i < before.len() {
                    assert(all[i] == before[i]);
                } else {
                    assert(all[i] == more[i - before.len()]);
                    let full = all[i].path;
                    assert(child.is_prefix_of(full));
                    assert(full[path.len() as int] == child[path.len() as int]);
                    assert(path =~= full.subrange(0, path.len() as int)) by {
                        assert forall|k: int| 0 <= k < path.len() implies path[k] == full[k] by {
                            assert(child[k] == full[k]);
                        }
                    }
                }
            }
            assert forall|i: int, j: int| 0 <= i < j < all.len() implies (
            #[trigger] all[i]).path != (#[trigger] all[j]).path by {
                if j < before.len() {
                    assert(all[i] == before[i] && all[j] == before[j]);
                } else if i >= before.len() {
                    assert(all[i] == more[i - before.len()]);
                    assert(all[j] == more[j - before.len()]);
                } else {
                    assert(all[i] == before[i]);
                    assert(before[i].path[path.len() as int] != Some((n - 1) as u64));
                }
            }
        }
    }
}

/// Every request is made below the subject of the value, and no two for the same subject.
pub proof fn requests_distinct(ty: Type, path: Seq<Option<u64>>)
    ensures
        all_below(requests(ty, path), path),
        all_distinct(requests(ty, path)),
    decreases ty, 1nat, 0nat,
{
    match ty {
        Type::List(element) => {
            requests_distinct(*element, path.push(None));
            lemma_below_child(requests(ty, path), path, None);
        },
        Type::Option(some) => {
            requests_distinct(*some, path.push(Some(1)));
            lemma_below_child(requests(ty, path), path, Some(1));
        },
        Type::Own(_) | Type::Borrow(_) => {
            assert(path.is_prefix_of(path)) by {
                assert(path =~= path.subrange(0, path.len() as int));
            }
        },
        _ => lemma_part_requests_distinct(ty, path, ty.arity()),
    }
}

proof fn lemma_below_child(requests: Seq<RequestModel>, path: Seq<Option<u64>>, child: Option<u64>)
    requires
        all_below(requests, path.push(child)),
    ensures
        all_below(requests, path),
{
    assert forall|i: int| 0 <= i < requests.len() implies path.is_prefix_of(
        (#[trigger] requests[i]).path,
    ) by {
        let full = requests[i].path;
        assert(path =~= full.subrange(0, path.len() as int)) by {
            assert forall|k: int| 0 <= k < path.len() implies path[k] == full[k] by {
                assert(path.push(child)[k] == full[k]);
            }
        }
    }
}

/// The subscriptions of the first `n` parts of a type, where `f` says what is subscribed for at
/// a subject.
pub open spec fn placed_parts<T>(
    parent: Type,
    path: Seq<Option<u64>>,
    f: spec_fn(RequestModel) -> Option<SubModel<T>>,
    n: nat,
) -> Seq<Option<SubModel<T>>>
    decreases parent, 0nat, n,
{
    if n == 0 || n > parent.arity() {
        Seq::empty()
    } else {
        placed_parts(parent, path, f, (n - 1) as nat).push(
            match parent.part(n - 1) {
                Some(ty) => placed(ty, path.push(Some((n - 1) as u64)), f),
                None => None,
            },
        )
    }
}

/// The subscription of a value of type `ty` whose subject is at `path`, where `f` says what is
/// subscribed for at a subject: a resource has what `f` gives at its own, and what holds others
/// has theirs, unless none has any.
pub open spec fn placed<T>(
    ty: Type,
    path: Seq<Option<u64>>,
    f: spec_fn(RequestModel) -> Option<SubModel<T>>,
) -> Option<SubModel<T>>
    decreases ty, 1nat, 0nat,
{
    let subs = placed_parts(ty, path, f, ty.arity());
    match ty {
        Type::List(element) => match placed(*element, path.push(None), f) {
            Some(sub) => Some(SubModel::List(Box::new(sub))),
            None => None,
        },
        Type::Option(some) => match placed(*some, path.push(Some(1)), f) {
            Some(sub) => Some(SubModel::Option(Box::new(sub))),
            None => None,
        },
        Type::Own(resource) | Type::Borrow(resource) => f(RequestModel { path, resource }),
        Type::Record(_) if any_some(subs) => Some(SubModel::Record(subs)),
        Type::Tuple(_) if any_some(subs) => Some(SubModel::Tuple(subs)),
        Type::Variant(_) if any_some(subs) => Some(SubModel::Variant(subs)),
        Type::Result { .. } if any_some(subs) => Some(
            SubModel::Result { ok: boxed(subs[0]), err: boxed(subs[1]) },
        ),
        _ => None,
    }
}

/// Whether each reply is what `f` gives for its request.
pub open spec fn answers<T>(
    replies: Seq<Option<SubModel<T>>>,
    requests: Seq<RequestModel>,
    f: spec_fn(RequestModel) -> Option<SubModel<T>>,
) -> bool {
    &&& requests.len() <= replies.len()
    &&& forall|i: int| 0 <= i < requests.len() ==> (#[trigger] replies[i]) == f(requests[i])
}

proof fn lemma_parts_in_place<T>(
    parent: Type,
    path: Seq<Option<u64>>,
    replies: Seq<Option<SubModel<T>>>,
    f: spec_fn(RequestModel) -> Option<SubModel<T>>,
    n: nat,
)
    requires
        n <= parent.arity(),
        answers(replies, part_requests(parent, path, n), f),
    ensures
        part_subs(parent, replies, n) == placed_parts(parent, path, f, n),
    decreases parent, 0nat, n,
{
    if n > 0 {
        let before = part_requests(parent, path, (n - 1) as nat);
        let all = part_requests(parent, path, n);
        lemma_part_request_count(parent, path, (n - 1) as nat);
        assert forall|i: int| 0 <= i < before.len() implies (#[trigger] replies[i]) == f(
            before[i],
        ) by {
            assert(all[i] == before[i]);
        }
        lemma_parts_in_place(parent, path, replies, f, (n - 1) as nat);
        if let Some(ty) = parent.part(n - 1) {
            let child = path.push(Some((n - 1) as u64));
            let rest = replies.skip(before.len() as int);
            let more = requests(ty, child);
            assert forall|i: int| 0 <= i < more.len() implies (#[trigger] rest[i]) == f(
                more[i],
            ) by {
                assert(all[before.len() + i] == more[i]);
                assert(rest[i] == replies[before.len() + i]);
            }
            replies_in_place(ty, child, rest, f);
        }
    }
}

/// A reply to the request for a subject ends up where the value of that subject is, whatever is
/// subscribed for elsewhere.
pub proof fn replies_in_place<T>(
    ty: Type,
    path: Seq<Option<u64>>,
    replies: Seq<Option<SubModel<T>>>,
    f: spec_fn(RequestModel) -> Option<SubModel<T>>,
)
    requires
        answers(replies, requests(ty, path), f),
    ensures
        subscribed(ty, replies) == placed(ty, path, f),
    decreases ty, 1nat, 0nat,
{
    match ty {
        Type::List(element) => replies_in_place(*element, path.push(None), replies, f),
        Type::Option(some) => replies_in_place(*some, path.push(Some(1)), replies, f),
        Type::Own(resource) | Type::Borrow(resource) => {
            assert(replies[0] == f(requests(ty, path)[0]));
        },
        _ => lemma_parts_in_place(ty, path, replies, f, ty.arity()),
    }
}

proof fn lemma_part_subscribed<T>(parent: Type, replies: Seq<Option<SubModel<T>>>, n: nat)
    requires
        n <= parent.arity(),
        part_resources(parent, n) <= replies.len(),
    ensures
        any_some(part_subs(parent, replies, n)) <==> any_some(
            replies.take(part_resources(parent, n) as int),
        ),
    decreases parent, 0nat, n,
{
    if n > 0 {
        let before = part_resources(parent, (n - 1) as nat);
        let count = part_resources(parent, n);
        let old_subs = part_subs(parent, replies, (n - 1) as nat);
        let subs = part_subs(parent, replies, n);
        lemma_part_subs_len(parent, replies, (n - 1) as nat);
        lemma_part_subscribed(parent, replies, (n - 1) as nat);
        let rest = replies.skip(before as int);
        if let Some(ty) = parent.part(n - 1) {
            subscribed_if_any(ty, rest);
        }
        let head = replies.take(before as int);
        let all = replies.take(count as int);
        if any_some(subs) {
            let i = choose|i: int| 0 <= i < subs.len() && (#[trigger] subs[i]) is Some;
            if i < n - 1 {
                assert(old_subs[i] is Some);
                let k = choose|k: int| 0 <= k < head.len() && (#[trigger] head[k]) is Some;
                assert(all[k] is Some);
            } else {
                let tail = rest.take(resources(parent.part(n - 1)->0) as int);
                let k = choose|k: int| 0 <= k < tail.len() && (#[trigger] tail[k]) is Some;
                assert(all[before + k] == tail[k]);
            }
        }
        if any_some(all) {
            let k = choose|k: int| 0 <= k < all.len() && (#[trigger] all[k]) is Some;
            if k < before {
                assert(head[k] is Some);
                let i = choose|i: int| 0 <= i < old_subs.len() && (#[trigger] old_subs[i]) is Some;
                assert(subs[i] is Some);
            } else {
                let tail = rest.take(resources(parent.part(n - 1)->0) as int);
                assert(tail[k - before] == all[k]);
                assert(subs[n - 1] is Some);
            }
        }
    }
}

/// A value has a subscription if and only if one of its resources has.
pub proof fn subscribed_if_any<T>(ty: Type, replies: Seq<Option<SubModel<T>>>)
    requires
        resources(ty) <= replies.len(),
    ensures
        subscribed(ty, replies) is Some <==> any_some(replies.take(resources(ty) as int)),
    decreases ty, 1nat, 0nat,
{
    match ty {
        Type::List(element) => subscribed_if_any(*element, replies),
        Type::Option(some) => subscribed_if_any(*some, replies),
        Type::Own(_) | Type::Borrow(_) => {
            assert(replies.take(1)[0] == replies[0]);
        },
        _ => lemma_part_subscribed(ty, replies, ty.arity()),
    }
}

/// There is one request for each resource that the first `n` types name, and none where there is
/// no type.
pub proof fn listed_request_count(types: Seq<Option<Type>>, n: nat)
    ensures
        listed_requests(types, n).len() == listed_resources(types, n),
    decreases n,
{
    if n > 0 {
        listed_request_count(types, (n - 1) as nat);
        if let Some(ty) = types[n - 1] {
            request_count(ty, seq![Some((n - 1) as u64)]);
        }
    }
}

/// No two requests for the first `n` types are made for the same subject, and each is made below
/// the index of the type that it is for.
pub proof fn listed_requests_distinct(types: Seq<Option<Type>>, n: nat)
    requires
        n <= usize::MAX,
    ensures
        all_distinct(listed_requests(types, n)),
        forall|i: int|
            0 <= i < listed_requests(types, n).len() ==> {
                &&& 0 < (#[trigger] listed_requests(types, n)[i]).path.len()
                &&& listed_requests(types, n)[i].path[0] matches Some(index) && index < n
                    && types[index as int] is Some
            },
    decreases n,
{
    if n > 0 {
        listed_requests_distinct(types, (n - 1) as nat);
        let before = listed_requests(types, (n - 1) as nat);
        let all = listed_requests(types, n);
        if let Some(ty) = types[n - 1] {
            let path = seq![Some((n - 1) as u64)];
            let more = requests(ty, path);
            requests_distinct(ty, path);
            assert forall|i: int| before.len() <= i < all.len() implies 0 < (
            #[trigger] all[i]).path.len() && all[i].path[0] == Some((n - 1) as u64) by {
                let request = more[i - before.len()];
                assert(all[i] == request);
                assert(path.is_prefix_of(request.path));
                assert(path[0] == request.path[0]);
            }
            assert forall|i: int, j: int| 0 <= i < j < all.len() implies (
            #[trigger] all[i]).path != (#[trigger] all[j]).path by {
                if j < before.len() {
                    assert(all[i] == before[i] && all[j] == before[j]);
                } else if i >= before.len() {
                    assert(all[i] == more[i - before.len()]);
                    assert(all[j] == more[j - before.len()]);
                } else {
                    assert(all[i] == before[i]);
                    assert(before[i].path[0] != Some((n - 1) as u64));
                }
            }
        }
    }
}

/// The subscriptions of values of the first `n` types, where `f` says what is subscribed for at a
/// subject: a value has its subject at its index, and none where there is no type.
pub open spec fn listed_placed<T>(
    types: Seq<Option<Type>>,
    f: spec_fn(RequestModel) -> Option<SubModel<T>>,
    n: nat,
) -> Seq<Option<SubModel<T>>> {
    Seq::new(
        n,
        |i: int|
            match types[i] {
                Some(ty) => placed(ty, seq![Some(i as u64)], f),
                None => None,
            },
    )
}

/// A reply to the request for a subject ends up where the value of that subject is, in the entry
/// of its type, and an entry without a type has no subscription.
pub proof fn listed_replies_in_place<T>(
    types: Seq<Option<Type>>,
    replies: Seq<Option<SubModel<T>>>,
    f: spec_fn(RequestModel) -> Option<SubModel<T>>,
    n: nat,
)
    requires
        answers(replies, listed_requests(types, n), f),
    ensures
        listed_subs(types, replies, n) == listed_placed(types, f, n),
    decreases n,
{
    if n > 0 {
        let before = listed_requests(types, (n - 1) as nat);
        let all = listed_requests(types, n);
        listed_request_count(types, (n - 1) as nat);
        assert forall|i: int| 0 <= i < before.len() implies (#[trigger] replies[i]) == f(
            before[i],
        ) by {
            assert(all[i] == before[i]);
        }
        listed_replies_in_place(types, replies, f, (n - 1) as nat);
        if let Some(ty) = types[n - 1] {
            let path = seq![Some((n - 1) as u64)];
            let rest = replies.skip(before.len() as int);
            let more = requests(ty, path);
            assert forall|i: int| 0 <= i < more.len() implies (#[trigger] rest[i]) == f(
                more[i],
            ) by {
                assert(all[before.len() + i] == more[i]);
                assert(rest[i] == replies[before.len() + i]);
            }
            replies_in_place(ty, path, rest, f);
        }
    }
    lemma_listed_subs_len(types, replies, n);
    assert(listed_subs(types, replies, n) =~= listed_placed(types, f, n));
}

/// The requests of each of the first `n` parts of a type.
spec fn each_part(parent: Type, path: Seq<Option<u64>>, n: nat) -> Seq<Seq<RequestModel>> {
    Seq::new(
        n,
        |i: int|
            match parent.part(i) {
                Some(ty) => requests(ty, path.push(Some(i as u64))),
                None => Seq::empty(),
            },
    )
}

proof fn lemma_part_requests_flat(parent: Type, path: Seq<Option<u64>>, n: nat)
    requires
        n <= parent.arity(),
    ensures
        part_requests(parent, path, n) == each_part(parent, path, n).flatten(),
    decreases n,
{
    let all = each_part(parent, path, n);
    if n == 0 {
        assert(all.flatten() =~= Seq::empty());
    } else {
        let before = each_part(parent, path, (n - 1) as nat);
        lemma_part_requests_flat(parent, path, (n - 1) as nat);
        assert(all =~= before.push(all[n - 1]));
        before.lemma_flatten_push(all[n - 1]);
        assert(before.flatten() + Seq::<RequestModel>::empty() =~= before.flatten());
    }
}

/// What is asked for is each resource of the type, with a subject that says where in the value it
/// is: the elements of a list share one child, and what an option holds is the child of index one.
pub proof fn requests_by_type(ty: Type, path: Seq<Option<u64>>)
    ensures
        match ty {
            Type::List(element) => requests(ty, path) == requests(*element, path.push(None)),
            Type::Option(some) => requests(ty, path) == requests(*some, path.push(Some(1u64))),
            Type::Own(resource) => requests(ty, path) == seq![RequestModel { path, resource }],
            Type::Borrow(resource) => requests(ty, path) == seq![RequestModel { path, resource }],
            Type::Record(_) | Type::Tuple(_) | Type::Variant(_) | Type::Result { .. } => true,
            _ => requests(ty, path).len() == 0,
        },
{
    assert(part_requests(ty, path, 0).len() == 0);
}

/// What is asked for, for a result, is what is asked for, for what went well, below the child of
/// index zero, and then for what did not, below that of index one.
pub proof fn requests_of_result(
    ok: Option<Box<Type>>,
    err: Option<Box<Type>>,
    path: Seq<Option<u64>>,
)
    ensures
        ({
            let first = match ok {
                Some(ok) => requests(*ok, path.push(Some(0u64))),
                None => Seq::empty(),
            };
            let second = match err {
                Some(err) => requests(*err, path.push(Some(1u64))),
                None => Seq::empty(),
            };
            requests(Type::Result { ok, err }, path) == first + second
        }),
{
    let ty = Type::Result { ok, err };
    let first = match ok {
        Some(ok) => requests(*ok, path.push(Some(0u64))),
        None => Seq::empty(),
    };
    let second = match err {
        Some(err) => requests(*err, path.push(Some(1u64))),
        None => Seq::empty(),
    };
    assert(part_requests(ty, path, 0) == Seq::<RequestModel>::empty());
    assert(part_requests(ty, path, 1) =~= first);
    assert(part_requests(ty, path, 2) =~= first + second);
    assert(ty.arity() == 2);
}

/// What is asked for, for a record, is what is asked for, for its fields, each below the child
/// of its index, in order.
pub proof fn requests_of_record(fields: Vec<Field>, path: Seq<Option<u64>>) -> (each: Seq<
    Seq<RequestModel>,
>)
    ensures
        each.len() == fields@.len(),
        forall|i: int|
            0 <= i < each.len() ==> #[trigger] each[i] == requests(
                fields@[i].ty,
                path.push(Some(i as u64)),
            ),
        requests(Type::Record(fields), path) == each.flatten(),
{
    let ty = Type::Record(fields);
    lemma_part_requests_flat(ty, path, ty.arity());
    each_part(ty, path, ty.arity())
}

/// What is asked for, for a tuple, is what is asked for, for its elements, each below the child
/// of its index, in order.
pub proof fn requests_of_tuple(types: Vec<Type>, path: Seq<Option<u64>>) -> (each: Seq<
    Seq<RequestModel>,
>)
    ensures
        each.len() == types@.len(),
        forall|i: int|
            0 <= i < each.len() ==> #[trigger] each[i] == requests(
                types@[i],
                path.push(Some(i as u64)),
            ),
        requests(Type::Tuple(types), path) == each.flatten(),
{
    let ty = Type::Tuple(types);
    lemma_part_requests_flat(ty, path, ty.arity());
    each_part(ty, path, ty.arity())
}

/// What is asked for, for a variant, is what is asked for, for its cases, each below the child
/// of its index, in order.
pub proof fn requests_of_variant(cases: Vec<Case>, path: Seq<Option<u64>>) -> (each: Seq<
    Seq<RequestModel>,
>)
    ensures
        each.len() == cases@.len(),
        forall|i: int|
            0 <= i < each.len() ==> #[trigger] each[i] == match cases@[i].ty {
                Some(ty) => requests(ty, path.push(Some(i as u64))),
                None => Seq::empty(),
            },
        requests(Type::Variant(cases), path) == each.flatten(),
{
    let ty = Type::Variant(cases);
    lemma_part_requests_flat(ty, path, ty.arity());
    each_part(ty, path, ty.arity())
}

/// What is asked for, for a list of types, is what is asked for, for each of them that is there,
/// below the child of its index, in order.
pub proof fn listed_requests_by_type(types: Seq<Option<Type>>, n: nat) -> (each: Seq<
    Seq<RequestModel>,
>)
    ensures
        each.len() == n,
        forall|i: int|
            0 <= i < n ==> #[trigger] each[i] == match types[i] {
                Some(ty) => requests(ty, seq![Some(i as u64)]),
                None => Seq::empty(),
            },
        listed_requests(types, n) == each.flatten(),
    decreases n,
{
    if n == 0 {
        let each = Seq::<Seq<RequestModel>>::empty();
        assert(each.flatten() =~= Seq::empty());
        each
    } else {
        let before = listed_requests_by_type(types, (n - 1) as nat);
        let last = match types[n - 1] {
            Some(ty) => requests(ty, seq![Some((n - 1) as u64)]),
            None => Seq::empty(),
        };
        before.lemma_flatten_push(last);
        assert(before.flatten() + Seq::<RequestModel>::empty() =~= before.flatten());
        before.push(last)
    }
}

/// What is asked for is listed as it is said.
pub proof fn requests_as_listed(
    ty: &Type,
    one: Vec<Request>,
    types: &[Option<&Type>],
    several: Vec<Request>,
)
    requires
        call_ensures(resource_requests, (ty,), one),
        call_ensures(listed_resource_requests, (types,), several),
    ensures
        one@.len() == requests(*ty, Seq::empty()).len(),
        forall|i: int|
            0 <= i < one@.len() ==> (#[trigger] one@[i]).path@ == requests(
                *ty,
                Seq::empty(),
            )[i].path && one@[i].resource == requests(*ty, Seq::empty())[i].resource,
        several@.len() == listed_requests(optional_refs(types@), types@.len()).len(),
        forall|i: int|
            0 <= i < several@.len() ==> (#[trigger] several@[i]).path@ == listed_requests(
                optional_refs(types@),
                types@.len(),
            )[i].path && several@[i].resource == listed_requests(
                optional_refs(types@),
                types@.len(),
            )[i].resource,
{
    assert(requests_model(one@).len() == one@.len());
    assert(requests_model(several@).len() == several@.len());
    assert forall|i: int| 0 <= i < one@.len() implies (#[trigger] one@[i])@ == requests(
        *ty,
        Seq::empty(),
    )[i] by {
        assert(requests_model(one@)[i] == one@[i]@);
    }
    assert forall|i: int| 0 <= i < several@.len() implies (#[trigger] several@[i])@
        == listed_requests(optional_refs(types@), types@.len())[i] by {
        assert(requests_model(several@)[i] == several@[i]@);
    }
}

/// Lists of types are the types that they hold, each in its place.
pub proof fn types_as_listed(owned: Seq<Type>, borrowed: Seq<&Type>, optional: Seq<Option<&Type>>)
    ensures
        present(owned).len() == owned.len(),
        forall|i: int| 0 <= i < owned.len() ==> #[trigger] present(owned)[i] == Some(owned[i]),
        present_refs(borrowed).len() == borrowed.len(),
        forall|i: int|
            0 <= i < borrowed.len() ==> #[trigger] present_refs(borrowed)[i] == Some(*borrowed[i]),
        optional_refs(optional).len() == optional.len(),
        forall|i: int|
            0 <= i < optional.len() ==> #[trigger] optional_refs(optional)[i] == match optional[i] {
                Some(ty) => Some(*ty),
                None => None,
            },
{
}

proof fn lemma_part_starts<T>(parent: Type, replies: Seq<Option<SubModel<T>>>, n: nat) -> (starts:
    Seq<int>)
    requires
        n <= parent.arity(),
    ensures
        starts.len() == n + 1,
        starts[0] == 0,
        starts[n as int] == part_resources(parent, n),
        forall|i: int|
            0 <= i < n ==> starts[i + 1] == starts[i] + match #[trigger] parent.part(i) {
                Some(ty) => requests(ty, Seq::empty()).len() as int,
                None => 0,
            },
        part_subs(parent, replies, n).len() == n,
        forall|i: int|
            0 <= i < n ==> #[trigger] part_subs(parent, replies, n)[i] == match parent.part(i) {
                Some(ty) => subscribed(ty, replies.skip(starts[i])),
                None => None,
            },
    decreases n,
{
    if n == 0 {
        seq![0int]
    } else {
        let m = (n - 1) as nat;
        let before = lemma_part_starts(parent, replies, m);
        let starts = before.push(part_resources(parent, n) as int);
        if let Some(ty) = parent.part(n - 1) {
            request_count(ty, Seq::empty());
        }
        assert forall|i: int| 0 <= i < n implies starts[i + 1] == starts[i]
            + match #[trigger] parent.part(i) {
            Some(ty) => requests(ty, Seq::empty()).len() as int,
            None => 0,
        } by {
            if i < m {
                assert(before[i] == starts[i]);
            }
        }
        assert forall|i: int| 0 <= i < n implies #[trigger] part_subs(parent, replies, n)[i]
            == match parent.part(i) {
            Some(ty) => subscribed(ty, replies.skip(starts[i])),
            None => None,
        } by {
            if i < m {
                assert(before[i] == starts[i]);
            }
        }
        starts
    }
}

/// A resource has the first reply, and a list or an option the subscription of what it holds. No
/// plain value has one.
pub proof fn subscribed_by_type<T>(ty: Type, replies: Seq<Option<SubModel<T>>>)
    ensures
        match ty {
            Type::List(element) => subscribed(ty, replies) == match subscribed(*element, replies) {
                Some(sub) => Some(SubModel::List(Box::new(sub))),
                None => None,
            },
            Type::Option(some) => subscribed(ty, replies) == match subscribed(*some, replies) {
                Some(sub) => Some(SubModel::Option(Box::new(sub))),
                None => None,
            },
            Type::Own(_) => subscribed(ty, replies) == replies[0],
            Type::Borrow(_) => subscribed(ty, replies) == replies[0],
            Type::Record(_) | Type::Tuple(_) | Type::Variant(_) | Type::Result { .. } => true,
            _ => subscribed(ty, replies) is None,
        },
{
}

/// A record has the subscriptions of its fields, each in its place and with the replies for its
/// own resources, unless there are none.
pub proof fn subscribed_record<T>(fields: Vec<Field>, replies: Seq<Option<SubModel<T>>>) -> (starts:
    Seq<int>)
    ensures
        starts.len() == fields@.len() + 1,
        starts[0] == 0,
        starts.last() == resources(Type::Record(fields)),
        forall|i: int|
            0 <= i < fields@.len() ==> starts[i + 1] == starts[i] + requests(
                (#[trigger] fields@[i]).ty,
                Seq::empty(),
            ).len(),
        subscribed(Type::Record(fields), replies) is Some <==> exists|i: int|
            0 <= i < fields@.len() && subscribed(
                (#[trigger] fields@[i]).ty,
                replies.skip(starts[i]),
            ) is Some,
        subscribed(Type::Record(fields), replies) matches Some(sub) ==> sub is Record
            && sub->Record_0.len() == fields@.len(),
        forall|i: int|
            subscribed(Type::Record(fields), replies) is Some && 0 <= i < fields@.len()
                ==> #[trigger] subscribed(Type::Record(fields), replies)->0->Record_0[i]
                == subscribed(
                fields@[i].ty,
                replies.skip(starts[i]),
            ),
{
    let ty = Type::Record(fields);
    let starts = lemma_part_starts(ty, replies, ty.arity());
    let subs = part_subs(ty, replies, ty.arity());
    assert forall|i: int| 0 <= i < fields@.len() implies starts[i + 1] == starts[i] + requests(
        (#[trigger] fields@[i]).ty,
        Seq::empty(),
    ).len() by {
        assert(ty.part(i) == Some(fields@[i].ty));
    }
    assert forall|i: int| 0 <= i < subs.len() implies #[trigger] subs[i] == subscribed(
        fields@[i].ty,
        replies.skip(starts[i]),
    ) by {
        assert(ty.part(i) == Some(fields@[i].ty));
    }
    assert(subscribed(Type::Record(fields), replies) == if any_some(subs) {
        Some(SubModel::Record(subs))
    } else {
        None
    });
    if any_some(subs) {
        let i = choose|i: int| 0 <= i < subs.len() && (#[trigger] subs[i]) is Some;
        assert(subscribed(fields@[i].ty, replies.skip(starts[i])) is Some);
    }
    if exists|i: int|
        0 <= i < fields@.len() && subscribed(
            (#[trigger] fields@[i]).ty,
            replies.skip(starts[i]),
        ) is Some {
        let i = choose|i: int|
            0 <= i < fields@.len() && subscribed(
                (#[trigger] fields@[i]).ty,
                replies.skip(starts[i]),
            ) is Some;
        assert(subs[i] is Some);
    }
    starts
}

/// A tuple has the subscriptions of its elements, each in its place and with the replies for its
/// own resources, unless there are none.
pub proof fn subscribed_tuple<T>(types: Vec<Type>, replies: Seq<Option<SubModel<T>>>) -> (starts:
    Seq<int>)
    ensures
        starts.len() == types@.len() + 1,
        starts[0] == 0,
        starts.last() == resources(Type::Tuple(types)),
        forall|i: int|
            0 <= i < types@.len() ==> starts[i + 1] == starts[i] + requests(
                #[trigger] types@[i],
                Seq::empty(),
            ).len(),
        subscribed(Type::Tuple(types), replies) is Some <==> exists|i: int|
            0 <= i < types@.len() && subscribed(
                #[trigger] types@[i],
                replies.skip(starts[i]),
            ) is Some,
        subscribed(Type::Tuple(types), replies) matches Some(sub) ==> sub is Tuple
            && sub->Tuple_0.len() == types@.len(),
        forall|i: int|
            subscribed(Type::Tuple(types), replies) is Some && 0 <= i < types@.len()
                ==> #[trigger] subscribed(Type::Tuple(types), replies)->0->Tuple_0[i]
                == subscribed(
                types@[i],
                replies.skip(starts[i]),
            ),
{
    let ty = Type::Tuple(types);
    let starts = lemma_part_starts(ty, replies, ty.arity());
    let subs = part_subs(ty, replies, ty.arity());
    assert forall|i: int| 0 <= i < types@.len() implies starts[i + 1] == starts[i] + requests(
        #[trigger] types@[i],
        Seq::empty(),
    ).len() by {
        assert(ty.part(i) == Some(types@[i]));
    }
    assert forall|i: int| 0 <= i < subs.len() implies #[trigger] subs[i] == subscribed(
        types@[i],
        replies.skip(starts[i]),
    ) by {
        assert(ty.part(i) == Some(types@[i]));
    }
    assert(subscribed(Type::Tuple(types), replies) == if any_some(subs) {
        Some(SubModel::Tuple(subs))
    } else {
        None
    });
    if any_some(subs) {
        let i = choose|i: int| 0 <= i < subs.len() && (#[trigger] subs[i]) is Some;
        assert(subscribed(types@[i], replies.skip(starts[i])) is Some);
    }
    if exists|i: int|
        0 <= i < types@.len() && subscribed(
            #[trigger] types@[i],
            replies.skip(starts[i]),
        ) is Some {
        let i = choose|i: int|
            0 <= i < types@.len() && subscribed(
                #[trigger] types@[i],
                replies.skip(starts[i]),
            ) is Some;
        assert(subs[i] is Some);
    }
    starts
}

/// A variant has the subscriptions of its cases, each in its place and with the replies for its
/// own resources, unless there are none.
pub proof fn subscribed_variant<T>(cases: Vec<Case>, replies: Seq<Option<SubModel<T>>>) -> (starts:
    Seq<int>)
    ensures
        starts.len() == cases@.len() + 1,
        starts[0] == 0,
        starts.last() == resources(Type::Variant(cases)),
        forall|i: int|
            0 <= i < cases@.len() ==> starts[i + 1] == starts[i] + match (#[trigger] cases@[i]).ty {
                Some(ty) => requests(ty, Seq::empty()).len() as int,
                None => 0,
            },
        subscribed(Type::Variant(cases), replies) is Some <==> exists|i: int|
            0 <= i < cases@.len() && ((#[trigger] cases@[i]).ty matches Some(ty) && subscribed(
                ty,
                replies.skip(starts[i]),
            ) is Some),
        subscribed(Type::Variant(cases), replies) matches Some(sub) ==> sub is Variant
            && sub->Variant_0.len() == cases@.len(),
        forall|i: int|
            subscribed(Type::Variant(cases), replies) is Some && 0 <= i < cases@.len()
                ==> #[trigger] subscribed(Type::Variant(cases), replies)->0->Variant_0[i]
                == match cases@[i].ty {
                Some(ty) => subscribed(ty, replies.skip(starts[i])),
                None => None,
            },
{
    let ty = Type::Variant(cases);
    let starts = lemma_part_starts(ty, replies, ty.arity());
    let subs = part_subs(ty, replies, ty.arity());
    assert forall|i: int| 0 <= i < cases@.len() implies starts[i + 1] == starts[i] + match (
    #[trigger] cases@[i]).ty {
        Some(ty) => requests(ty, Seq::empty()).len() as int,
        None => 0,
    } by {
        assert(ty.part(i) == cases@[i].ty);
    }
    assert forall|i: int| 0 <= i < subs.len() implies #[trigger] subs[i] == match cases@[i].ty {
        Some(ty) => subscribed(ty, replies.skip(starts[i])),
        None => None,
    } by {
        assert(ty.part(i) == cases@[i].ty);
    }
    assert(subscribed(Type::Variant(cases), replies) == if any_some(subs) {
        Some(SubModel::Variant(subs))
    } else {
        None
    });
    if any_some(subs) {
        let i = choose|i: int| 0 <= i < subs.len() && (#[trigger] subs[i]) is Some;
        assert(cases@[i].ty matches Some(ty) && subscribed(ty, replies.skip(starts[i])) is Some);
    }
    if exists|i: int|
        0 <= i < cases@.len() && ((#[trigger] cases@[i]).ty matches Some(ty) && subscribed(
            ty,
            replies.skip(starts[i]),
        ) is Some) {
        let i = choose|i: int|
            0 <= i < cases@.len() && ((#[trigger] cases@[i]).ty matches Some(ty) && subscribed(
                ty,
                replies.skip(starts[i]),
            ) is Some);
        assert(subs[i] is Some);
    }
    starts
}

/// A result has the subscriptions of what it holds, unless there are none: its resources are those
/// of what went well, and then those of what did not.
pub proof fn subscribed_result<T>(
    ok: Option<Box<Type>>,
    err: Option<Box<Type>>,
    replies: Seq<Option<SubModel<T>>>,
)
    ensures
        ({
            let own = match ok {
                Some(ok) => requests(*ok, Seq::empty()).len() as int,
                None => 0,
            };
            let sub_ok = match ok {
                Some(ok) => subscribed(*ok, replies),
                None => None,
            };
            let sub_err = match err {
                Some(err) => subscribed(*err, replies.skip(own)),
                None => None,
            };
            match subscribed(Type::Result { ok, err }, replies) {
                Some(sub) => sub == (SubModel::Result {
                    ok: match sub_ok {
                        Some(s) => Some(Box::new(s)),
                        None => None,
                    },
                    err: match sub_err {
                        Some(s) => Some(Box::new(s)),
                        None => None,
                    },
                }) && (sub_ok is Some || sub_err is Some),
                None => sub_ok is None && sub_err is None,
            }
        }),
{
    let ty = Type::Result { ok, err };
    let starts = lemma_part_starts(ty, replies, 2);
    assert(starts[1] == starts[0] + match ty.part(0) {
        Some(ty) => requests(ty, Seq::empty()).len() as int,
        None => 0,
    });
    assert(replies.skip(0) =~= replies);
    let subs = part_subs(ty, replies, 2);
    assert(subs[0] == match ty.part(0) {
        Some(ty) => subscribed(ty, replies.skip(starts[0])),
        None => None,
    });
    assert(subs[1] == match ty.part(1) {
        Some(ty) => subscribed(ty, replies.skip(starts[1])),
        None => None,
    });
    assert(any_some(subs) <==> subs[0] is Some || subs[1] is Some);
}

/// The subscriptions for a list of types are those of each that is there, in its place, with the
/// replies for its own resources: those after the resources of the types before it.
pub proof fn listed_subscriptions<T>(
    types: Seq<Option<Type>>,
    replies: Seq<Option<SubModel<T>>>,
    n: nat,
) -> (starts: Seq<int>)
    ensures
        starts.len() == n + 1,
        starts[0] == 0,
        starts[n as int] == listed_resources(types, n),
        forall|i: int|
            0 <= i < n ==> starts[i + 1] == starts[i] + match #[trigger] types[i] {
                Some(ty) => requests(ty, Seq::empty()).len() as int,
                None => 0,
            },
        listed_subs(types, replies, n).len() == n,
        forall|i: int|
            0 <= i < n ==> #[trigger] listed_subs(types, replies, n)[i] == match types[i] {
                Some(ty) => subscribed(ty, replies.skip(starts[i])),
                None => None,
            },
    decreases n,
{
    if n == 0 {
        seq![0int]
    } else {
        let m = (n - 1) as nat;
        let before = listed_subscriptions(types, replies, m);
        let starts = before.push(listed_resources(types, n) as int);
        if let Some(ty) = types[n - 1] {
            request_count(ty, Seq::empty());
        }
        assert forall|i: int| 0 <= i < n implies starts[i + 1] == starts[i]
            + match #[trigger] types[i] {
            Some(ty) => requests(ty, Seq::empty()).len() as int,
            None => 0,
        } by {
            if i < m {
                assert(before[i] == starts[i]);
            }
        }
        assert forall|i: int| 0 <= i < n implies #[trigger] listed_subs(types, replies, n)[i]
            == match types[i] {
            Some(ty) => subscribed(ty, replies.skip(starts[i])),
            None => None,
        } by {
            if i < m {
                assert(before[i] == starts[i]);
            }
        }
        starts
    }
}

/// Subscriptions are there exactly where one of them is.
pub proof fn none_unless_any<V>(subs: Seq<Option<V>>)
    ensures
        unless_none(subs) is Some <==> exists|i: int|
            0 <= i < subs.len() && (#[trigger] subs[i]) is Some,
        unless_none(subs) matches Some(all) ==> all == subs,
{
}

} // verus!
