//! Subscriptions for the asynchronous parts of a value.
use vstd::prelude::*;

verus! {

/// The subscriptions that a value needs beside its payload, in the shape of the value's type.
///
/// `T` is what a transport hands out for one subject.
#[derive(Debug, PartialEq, Eq)]
pub enum AsyncSubscription<T> {
    List(Box<AsyncSubscription<T>>),
    Record(Vec<Option<AsyncSubscription<T>>>),
    Tuple(Vec<Option<AsyncSubscription<T>>>),
    Variant(Vec<Option<AsyncSubscription<T>>>),
    Option(Box<AsyncSubscription<T>>),
    Result { ok: Option<Box<AsyncSubscription<T>>>, err: Option<Box<AsyncSubscription<T>>> },
    Future { subscriber: T, nested: Option<Box<AsyncSubscription<T>>> },
    Stream { subscriber: T, nested: Option<Box<AsyncSubscription<T>>> },
}

/// The mathematical content of an [`AsyncSubscription`].
#[verifier::ext_equal]
pub enum SubModel<T> {
    List(Box<SubModel<T>>),
    Record(Seq<Option<SubModel<T>>>),
    Tuple(Seq<Option<SubModel<T>>>),
    Variant(Seq<Option<SubModel<T>>>),
    Option(Box<SubModel<T>>),
    Result { ok: Option<Box<SubModel<T>>>, err: Option<Box<SubModel<T>>> },
    Future { subscriber: T, nested: Option<Box<SubModel<T>>> },
    Stream { subscriber: T, nested: Option<Box<SubModel<T>>> },
}

impl<T> AsyncSubscription<T> {
    /// The content of the subscription.
    pub open spec fn model(self) -> SubModel<T>
        decreases self, 0nat,
    {
        match self {
            AsyncSubscription::List(sub) => SubModel::List(Box::new(sub.model())),
            AsyncSubscription::Record(subs) => SubModel::Record(subs_model_of(subs)),
            AsyncSubscription::Tuple(subs) => SubModel::Tuple(subs_model_of(subs)),
            AsyncSubscription::Variant(subs) => SubModel::Variant(subs_model_of(subs)),
            AsyncSubscription::Option(sub) => SubModel::Option(Box::new(sub.model())),
            AsyncSubscription::Result { ok, err } => SubModel::Result {
                ok: boxed_sub_model(ok),
                err: boxed_sub_model(err),
            },
            AsyncSubscription::Future { subscriber, nested } => SubModel::Future {
                subscriber,
                nested: boxed_sub_model(nested),
            },
            AsyncSubscription::Stream { subscriber, nested } => SubModel::Stream {
                subscriber,
                nested: boxed_sub_model(nested),
            },
        }
    }
}

/// The content of each optional subscription.
pub open spec fn subs_model_of<T>(subs: Vec<Option<AsyncSubscription<T>>>) -> Seq<
    Option<SubModel<T>>,
>
    decreases subs, 1nat,
{
    Seq::new(
        subs@.len(),
        |i: int|
            if 0 <= i < subs@.len() {
                match subs@[i] {
                    Some(sub) => Some(sub.model()),
                    None => None,
                }
            } else {
                None
            },
    )
}

/// The content of a boxed subscription.
pub open spec fn boxed_sub_model<T>(sub: Option<Box<AsyncSubscription<T>>>) -> Option<
    Box<SubModel<T>>,
>
    decreases sub, 1nat,
{
    match sub {
        Some(sub) => Some(Box::new(sub.model())),
        None => None,
    }
}

/// The content of an optional subscription.
pub open spec fn sub_model<T>(sub: Option<AsyncSubscription<T>>) -> Option<SubModel<T>> {
    match sub {
        Some(sub) => Some(sub.model()),
        None => None,
    }
}

/// The content of each optional subscription.
pub open spec fn subs_model<T>(subs: Seq<Option<AsyncSubscription<T>>>) -> Seq<
    Option<SubModel<T>>,
> {
    Seq::new(subs.len(), |i: int| sub_model(subs[i]))
}

/// The content of an optional borrowed subscription.
pub open spec fn sub_ref_model<T>(sub: Option<&AsyncSubscription<T>>) -> Option<SubModel<T>> {
    match sub {
        Some(sub) => Some(sub.model()),
        None => None,
    }
}

impl<T> View for AsyncSubscription<T> {
    type V = SubModel<T>;

    open spec fn view(&self) -> SubModel<T> {
        self.model()
    }
}

/// The content of a subscription is what it subscribes with, and the content of what it is made of,
/// each in its place.
pub proof fn subscription_content<T>(sub: AsyncSubscription<T>)
    ensures
        match sub {
            AsyncSubscription::List(nested) => sub@ == SubModel::List(Box::new(nested@)),
            AsyncSubscription::Option(nested) => sub@ == SubModel::Option(Box::new(nested@)),
            AsyncSubscription::Record(subs) => sub@ matches SubModel::Record(ms) && ms.len()
                == subs@.len() && forall|i: int|
                0 <= i < subs@.len() ==> #[trigger] ms[i] == match subs@[i] {
                    Some(s) => Some(s@),
                    None => None,
                },
            AsyncSubscription::Tuple(subs) => sub@ matches SubModel::Tuple(ms) && ms.len()
                == subs@.len() && forall|i: int|
                0 <= i < subs@.len() ==> #[trigger] ms[i] == match subs@[i] {
                    Some(s) => Some(s@),
                    None => None,
                },
            AsyncSubscription::Variant(subs) => sub@ matches SubModel::Variant(ms) && ms.len()
                == subs@.len() && forall|i: int|
                0 <= i < subs@.len() ==> #[trigger] ms[i] == match subs@[i] {
                    Some(s) => Some(s@),
                    None => None,
                },
            AsyncSubscription::Result { ok, err } => sub@ == (SubModel::Result {
                ok: match ok {
                    Some(s) => Some(Box::new(s@)),
                    None => None,
                },
                err: match err {
                    Some(s) => Some(Box::new(s@)),
                    None => None,
                },
            }),
            AsyncSubscription::Future { subscriber, nested } => sub@ == (SubModel::Future {
                subscriber,
                nested: match nested {
                    Some(s) => Some(Box::new(s@)),
                    None => None,
                },
            }),
            AsyncSubscription::Stream { subscriber, nested } => sub@ == (SubModel::Stream {
                subscriber,
                nested: match nested {
                    Some(s) => Some(Box::new(s@)),
                    None => None,
                },
            }),
        },
{
    reveal_with_fuel(AsyncSubscription::model, 2);
    reveal_with_fuel(subs_model_of, 2);
    reveal_with_fuel(boxed_sub_model, 2);
}

/// The content of subscriptions that may not be there is that of each.
pub proof fn subscriptions_of_each<T>(
    sub: Option<AsyncSubscription<T>>,
    borrowed: Option<&AsyncSubscription<T>>,
    subs: Seq<Option<AsyncSubscription<T>>>,
)
    ensures
        sub_model(sub) == match sub {
            Some(sub) => Some(sub@),
            None => None,
        },
        sub_ref_model(borrowed) == match borrowed {
            Some(sub) => Some(sub@),
            None => None,
        },
        subs_model(subs).len() == subs.len(),
        forall|i: int|
            0 <= i < subs.len() ==> #[trigger] subs_model(subs)[i] == match subs[i] {
                Some(sub) => Some(sub@),
                None => None,
            },
{
}

} // verus!
