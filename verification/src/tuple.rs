//! Receiving a value, or several one after the other, from a payload that arrives in chunks.
use std::collections::VecDeque;

use vstd::prelude::*;

use crate::encoding::{encoded_value_is_received, encoding, slack};
use crate::leb128::holds_at;
use crate::receive::{
    elements, map_outcome, receive, receive_value, select_sub, sub_at, Outcome, Received,
};
use crate::scan::ReceiveError;
use crate::stability::{
    lemma_prefix_of_itself, moved, receive_extends, receive_from_position, within,
};
use crate::subscribe::{
    into_array, listed_resources, listed_subs, optional_refs, present, present_refs,
    subscribe_component_async_iter, subscribe_component_async_iter_optional, unless_none,
};
use crate::subscription::{
    sub_model, sub_ref_model, subs_model, subs_model_of, AsyncSubscription, SubModel,
};
use crate::typing::typed;
use crate::value::{vals_model, Type, Val, ValModel};

verus! {

/// A decoded value.
#[derive(Debug, PartialEq, Eq)]
pub struct Value(pub Val);

impl Value {
    /// Decodes the value of type `ty` at `at`.
    pub fn receive_context<'a, T>(
        ty: &Type,
        payload: &[u8],
        at: usize,
        sub: Option<&'a AsyncSubscription<T>>,
    ) -> (r: Received<'a, Value, T>)
        ensures
            value_outcome(r) == receive(
                *ty,
                sub_ref_model(sub),
                payload@,
                at as int,
            ),
    {
        match receive_value(payload, at, sub, ty) {
            Received::Done(v, next) => Received::Done(Value(v), next),
            Received::Incomplete => Received::Incomplete,
            Received::Resource(ty, at, sub) => Received::Resource(ty, at, sub),
            Received::Failed(e) => Received::Failed(e),
        }
    }
}

/// The content of the outcome for a [`Value`].
pub open spec fn value_outcome<T>(r: Received<Value, T>) -> Outcome<ValModel, T> {
    match r {
        Received::Done(v, next) => Outcome::Done(v.0@, next as int),
        Received::Incomplete => Outcome::Incomplete,
        Received::Resource(ty, at, sub) => Outcome::Resource(
            ty,
            at as int,
            sub_ref_model(sub),
        ),
        Received::Failed(e) => Outcome::Failed(e),
    }
}

/// The values of the first `n` types, one after the other from the start of the payload.
pub open spec fn sequence<T>(
    types: Seq<Type>,
    subs: Seq<Option<SubModel<T>>>,
    b: Seq<u8>,
    n: nat,
) -> Outcome<Seq<ValModel>, T>
    decreases n,
{
    if n == 0 {
        Outcome::Done(Seq::empty(), 0)
    } else {
        match sequence(types, subs, b, (n - 1) as nat) {
            Outcome::Done(vs, next) => map_outcome(
                receive(types[n - 1], sub_at(Some(subs), n - 1), b, next),
                |v: ValModel| vs.push(v),
            ),
            o => o,
        }
    }
}

/// The values of all types, one after the other from the start of the payload.
pub open spec fn tuple_at<T>(
    types: Seq<Type>,
    subs: Seq<Option<SubModel<T>>>,
    b: Seq<u8>,
) -> Outcome<Seq<ValModel>, T> {
    sequence(types, subs, b, types.len())
}

proof fn lemma_sequence_stop<T>(
    types: Seq<Type>,
    subs: Seq<Option<SubModel<T>>>,
    b: Seq<u8>,
    k: nat,
    n: nat,
)
    requires
        k <= n,
        !(sequence(types, subs, b, k) is Done),
    ensures
        sequence(types, subs, b, n) == sequence(types, subs, b, k),
    decreases n,
{
    if k < n {
        lemma_sequence_stop(types, subs, b, k, (n - 1) as nat);
    }
}

proof fn lemma_sequence_extends<T>(
    types: Seq<Type>,
    subs: Seq<Option<SubModel<T>>>,
    b: Seq<u8>,
    c: Seq<u8>,
    n: nat,
)
    requires
        b.is_prefix_of(c),
    ensures
        sequence(types, subs, b, n) is Incomplete || sequence(types, subs, c, n) == sequence(
            types,
            subs,
            b,
            n,
        ),
        within(sequence(types, subs, b, n), 0, b.len()),
    decreases n,
{
    if n > 0 {
        lemma_sequence_extends(types, subs, b, c, (n - 1) as nat);
        if let Outcome::Done(_, next) = sequence(types, subs, b, (n - 1) as nat) {
            receive_extends(types[n - 1], sub_at(Some(subs), n - 1), b, c, next);
        }
    }
}

/// What comes of a payload does not change when more of it arrives, so where it was cut into
/// chunks makes no difference.
pub proof fn tuple_extends<T>(
    types: Seq<Type>,
    subs: Seq<Option<SubModel<T>>>,
    b: Seq<u8>,
    chunk: Seq<u8>,
)
    ensures
        tuple_at(types, subs, b) is Incomplete || tuple_at(types, subs, b + chunk) == tuple_at(
            types,
            subs,
            b,
        ),
{
    assert(b.is_prefix_of(b + chunk)) by {
        assert(b =~= (b + chunk).subrange(0, b.len() as int));
    }
    lemma_sequence_extends(types, subs, b, b + chunk, types.len());
}

proof fn lemma_sequence_take<T>(
    types: Seq<Type>,
    subs: Seq<Option<SubModel<T>>>,
    b: Seq<u8>,
    k: nat,
    n: nat,
)
    requires
        n <= k <= types.len(),
    ensures
        sequence(types.take(k as int), subs, b, n) == sequence(types, subs, b, n),
    decreases n,
{
    if n > 0 {
        lemma_sequence_take(types, subs, b, k, (n - 1) as nat);
    }
}

proof fn lemma_value_in_part<T>(
    ty: Type,
    sub: Option<SubModel<T>>,
    b: Seq<u8>,
    start: int,
    at: int,
)
    requires
        0 <= start <= b.len(),
        0 <= at <= b.len() - start,
    ensures
        receive(ty, sub, b, start + at) == moved(receive(ty, sub, b.skip(start), at), start),
{
    receive_from_position(ty, sub, b, start + at);
    receive_from_position(ty, sub, b.skip(start), at);
    assert(b.skip(start).skip(at) =~= b.skip(start + at));
}

#[verifier::rlimit(50)]
#[verifier::spinoff_prover]
proof fn lemma_sequence_in_parts<T>(
    types: Seq<Type>,
    subs: Seq<Option<SubModel<T>>>,
    more: Seq<Option<SubModel<T>>>,
    b: Seq<u8>,
    k: nat,
    n: nat,
)
    requires
        k + n <= types.len(),
        sequence(types, subs, b, k) is Done,
        forall|i: int| 0 <= i ==> #[trigger] sub_at(Some(more), i) == sub_at(Some(subs), k + i),
    ensures
        sequence(types, subs, b, k) matches Outcome::Done(vs, next) && sequence(
            types,
            subs,
            b,
            k + n,
        ) == moved(
            map_outcome(
                sequence(types.skip(k as int), more, b.skip(next), n),
                |ws: Seq<ValModel>| vs + ws,
            ),
            next,
        ),
    decreases n,
{
    if let Outcome::Done(vs, next) = sequence(types, subs, b, k) {
        let rest = b.skip(next);
        lemma_prefix_of_itself(b);
        lemma_sequence_extends(types, subs, b, b, k);
        if n == 0 {
            assert(vs + Seq::<ValModel>::empty() =~= vs);
        } else {
            let m = (n - 1) as nat;
            lemma_sequence_in_parts(types, subs, more, b, k, m);
            lemma_prefix_of_itself(rest);
            lemma_sequence_extends(types.skip(k as int), more, rest, rest, m);
            if let Outcome::Done(ws, at) = sequence(types.skip(k as int), more, rest, m) {
                let ty = types[k + n - 1];
                let sub = sub_at(Some(subs), k + n - 1);
                assert(sub_at(Some(more), m as int) == sub);
                assert(types.skip(k as int)[m as int] == ty);
                lemma_value_in_part(ty, sub, b, next, at);
                if let Outcome::Done(v, _) = receive(ty, sub, rest, at) {
                    assert((vs + ws).push(v) =~= vs + ws.push(v));
                }
            }
        }
    }
}

/// The values of all types are those of the first types and then those of the others, from what
/// the first have left of the payload.
pub proof fn tuple_in_parts<T>(
    types: Seq<Type>,
    subs: Seq<Option<SubModel<T>>>,
    more: Seq<Option<SubModel<T>>>,
    b: Seq<u8>,
    k: nat,
)
    requires
        k <= types.len(),
        forall|i: int| 0 <= i ==> #[trigger] sub_at(Some(more), i) == sub_at(Some(subs), k + i),
    ensures
        match tuple_at(types.take(k as int), subs, b) {
            Outcome::Done(vs, next) => 0 <= next <= b.len() && tuple_at(types, subs, b) == moved(
                map_outcome(
                    tuple_at(types.skip(k as int), more, b.skip(next)),
                    |ws: Seq<ValModel>| vs + ws,
                ),
                next,
            ),
            o => tuple_at(types, subs, b) == o,
        },
{
    lemma_sequence_take(types, subs, b, k, k);
    lemma_prefix_of_itself(b);
    lemma_sequence_extends(types, subs, b, b, k);
    if sequence(types, subs, b, k) is Done {
        lemma_sequence_in_parts(types, subs, more, b, k, (types.len() - k) as nat);
    } else {
        lemma_sequence_stop(types, subs, b, k, types.len());
    }
}

/// The types that are borrowed.
pub open spec fn deref_types(types: Seq<&Type>) -> Seq<Type> {
    Seq::new(types.len(), |i: int| *types[i])
}

/// What has been received of several values.
#[derive(Debug, PartialEq, Eq)]
struct Progress<'a, T> {
    nested: Vec<Option<AsyncSubscription<T>>>,
    types: Vec<&'a Type>,
    payload: Vec<u8>,
    at: usize,
    vals: Vec<Val>,
}

/// What comes of advancing a [`Progress`].
enum Advanced<'a, T> {
    Ready(Vec<Val>, Vec<u8>),
    Pending(Progress<'a, T>),
    Resource(u32, usize),
    Failed(ReceiveError),
}

impl<'a, T> Progress<'a, T> {
    spec fn type_seq(&self) -> Seq<Type> {
        deref_types(self.types@)
    }

    spec fn sub_seq(&self) -> Seq<Option<SubModel<T>>> {
        subs_model(self.nested@)
    }

    /// Whether the values so far are those that the payload starts with.
    spec fn wf(&self) -> bool {
        &&& self.vals@.len() <= self.types@.len()
        &&& sequence(self.type_seq(), self.sub_seq(), self.payload@, self.vals@.len())
            == Outcome::<Seq<ValModel>, T>::Done(vals_model(self.vals@), self.at as int)
    }

    /// Whether this is how far the values of the types are in the payload.
    spec fn advanced(
        r: Advanced<'a, T>,
        types: Seq<Type>,
        subs: Seq<Option<SubModel<T>>>,
        b: Seq<u8>,
    ) -> bool {
        match r {
            Advanced::Ready(vals, rest) => tuple_at(types, subs, b) matches Outcome::Done(vs, next)
                && vs == vals_model(vals@) && 0 <= next <= b.len() && rest@ == b.skip(next),
            Advanced::Pending(next) => {
                &&& tuple_at(types, subs, b) is Incomplete
                &&& next.wf()
                &&& next.type_seq() == types
                &&& next.sub_seq() == subs
                &&& next.payload@ == b
            },
            Advanced::Resource(ty, at) => tuple_at(types, subs, b) matches Outcome::Resource(
                resource,
                next,
                _,
            ) && resource == ty && next == at,
            Advanced::Failed(e) => tuple_at(types, subs, b) == Outcome::<Seq<ValModel>, T>::Failed(
                e,
            ),
        }
    }

    /// Receives as many values as the payload holds.
    fn advance(self) -> (r: Advanced<'a, T>)
        requires
            self.wf(),
        ensures
            Self::advanced(r, self.type_seq(), self.sub_seq(), self.payload@),
    {
        let mut state: Progress<'a, T> = self;
        while state.vals.len() < state.types.len()
            invariant
                state.wf(),
                state.types == self.types,
                state.nested == self.nested,
                state.payload == self.payload,
            decreases state.types@.len() - state.vals@.len(),
        {
            let i: usize = state.vals.len();
            let ghost types = state.type_seq();
            let ghost subs = state.sub_seq();
            let ghost vals = state.vals@;
            assert(subs_model_of(state.nested) =~= subs);
            let r: Received<'_, Val, T> = receive_value(
                state.payload.as_slice(),
                state.at,
                select_sub(Some(&state.nested), i),
                state.types[i],
            );
            proof {
                if !(r is Done) {
                    lemma_sequence_stop(types, subs, state.payload@, i as nat + 1, types.len());
                }
            }
            match r {
                Received::Done(v, next) => {
                    state.vals.push(v);
                    state.at = next;
                    assert(vals_model(state.vals@) =~= vals_model(vals).push(v@));
                },
                Received::Incomplete => return Advanced::Pending(state),
                Received::Resource(ty, at, _) => return Advanced::Resource(ty, at),
                Received::Failed(e) => return Advanced::Failed(e),
            }
        }
        proof {
            lemma_prefix_of_itself(state.payload@);
            lemma_sequence_extends(
                state.type_seq(),
                state.sub_seq(),
                state.payload@,
                state.payload@,
                state.types@.len(),
            );
        }
        let mut payload: Vec<u8> = state.payload;
        let rest: Vec<u8> = payload.split_off(state.at);
        assert(rest@ =~= self.payload@.skip(state.at as int));
        Advanced::Ready(state.vals, rest)
    }

    /// Receives as many values as the payload holds with another chunk, or without one where
    /// there is no more: the values are then to be in the payload.
    fn resume(self, chunk: Option<Vec<u8>>) -> (r: Advanced<'a, T>)
        requires
            self.wf(),
        ensures
            match chunk {
                Some(chunk) => Self::advanced(
                    r,
                    self.type_seq(),
                    self.sub_seq(),
                    self.payload@ + chunk@,
                ),
                None if tuple_at(self.type_seq(), self.sub_seq(), self.payload@) is Incomplete => r
                    == Advanced::<'a, T>::Failed(ReceiveError::UnexpectedEnd),
                None => Self::advanced(r, self.type_seq(), self.sub_seq(), self.payload@),
            },
    {
        match chunk {
            Some(mut chunk) => {
                let ghost bytes = chunk@;
                let mut state: Progress<'a, T> = self;
                state.payload.append(&mut chunk);
                proof {
                    assert(self.payload@.is_prefix_of(state.payload@)) by {
                        assert(self.payload@ =~= state.payload@.subrange(
                            0,
                            self.payload@.len() as int,
                        ));
                    }
                    lemma_sequence_extends(
                        self.type_seq(),
                        self.sub_seq(),
                        self.payload@,
                        state.payload@,
                        self.vals@.len(),
                    );
                }
                state.advance()
            },
            None => match self.advance() {
                Advanced::Pending(_) => Advanced::Failed(ReceiveError::UnexpectedEnd),
                advanced => advanced,
            },
        }
    }
}

/// What comes of receiving a value, or several.
#[derive(Debug, PartialEq, Eq)]
pub enum TupleStep<R, V> {
    /// What was to be received, and what is left of the payload.
    Ready(V, Vec<u8>),
    /// The payload ends too early.
    Pending(R),
    /// A resource of the given type has to be decoded at the position.
    Resource(u32, usize),
    /// No further bytes can make the payload valid.
    Failed(ReceiveError),
}

/// Receives values of types that are only known at run time.
#[derive(Debug, PartialEq, Eq)]
pub struct TupleDynamicReceiver<'a, T> {
    progress: Progress<'a, T>,
}

impl<'a, T> TupleDynamicReceiver<'a, T> {
    #[verifier::type_invariant]
    spec fn inv(self) -> bool {
        self.progress.wf()
    }

    /// The types of the values.
    pub closed spec fn types(self) -> Seq<Type> {
        self.progress.type_seq()
    }

    /// The subscriptions of the values.
    pub closed spec fn subs(self) -> Seq<Option<SubModel<T>>> {
        self.progress.sub_seq()
    }

    /// The payload that has arrived.
    pub closed spec fn payload(self) -> Seq<u8> {
        self.progress.payload@
    }

    /// Whether this is what comes of the values of the types in a payload.
    pub open spec fn step(
        r: TupleStep<Self, Vec<Val>>,
        types: Seq<Type>,
        subs: Seq<Option<SubModel<T>>>,
        b: Seq<u8>,
    ) -> bool {
        match r {
            TupleStep::Ready(vals, rest) => tuple_at(types, subs, b) matches Outcome::Done(vs, next)
                && vs == vals_model(vals@) && 0 <= next <= b.len() && rest@ == b.skip(next),
            TupleStep::Pending(next) => tuple_at(types, subs, b) is Incomplete && next.types()
                == types && next.subs() == subs && next.payload() == b,
            TupleStep::Resource(ty, at) => tuple_at(types, subs, b) matches Outcome::Resource(
                resource,
                next,
                _,
            ) && resource == ty && next == at,
            TupleStep::Failed(e) => tuple_at(types, subs, b) == Outcome::<
                Seq<ValModel>,
                T,
            >::Failed(e),
        }
    }

    fn stepped(advanced: Advanced<'a, T>) -> (r: TupleStep<Self, Vec<Val>>)
        requires
            advanced matches Advanced::Pending(progress) ==> progress.wf(),
        ensures
            match advanced {
                Advanced::Ready(vals, rest) => r == TupleStep::<Self, Vec<Val>>::Ready(vals, rest),
                Advanced::Pending(progress) => r matches TupleStep::Pending(next) && next.progress
                    == progress,
                Advanced::Resource(ty, at) => r == TupleStep::<Self, Vec<Val>>::Resource(ty, at),
                Advanced::Failed(e) => r == TupleStep::<Self, Vec<Val>>::Failed(e),
            },
    {
        match advanced {
            Advanced::Ready(vals, rest) => TupleStep::Ready(vals, rest),
            Advanced::Pending(progress) => TupleStep::Pending(TupleDynamicReceiver { progress }),
            Advanced::Resource(ty, at) => TupleStep::Resource(ty, at),
            Advanced::Failed(e) => TupleStep::Failed(e),
        }
    }

    /// Receives the values from the payload that has arrived.
    pub fn receive(self) -> (r: TupleStep<Self, Vec<Val>>)
        ensures
            Self::step(r, self.types(), self.subs(), self.payload()),
    {
        proof {
            use_type_invariant(&self);
        }
        Self::stepped(self.progress.advance())
    }

    /// Receives the values from the payload and another chunk, or from the payload alone where
    /// there is no more: the values are then to be in it.
    pub fn resume(self, chunk: Option<Vec<u8>>) -> (r: TupleStep<Self, Vec<Val>>)
        ensures
            match chunk {
                Some(chunk) => Self::step(
                    r,
                    self.types(),
                    self.subs(),
                    self.payload() + chunk@,
                ),
                None if tuple_at(self.types(), self.subs(), self.payload()) is Incomplete => r
                    == TupleStep::<Self, Vec<Val>>::Failed(ReceiveError::UnexpectedEnd),
                None => Self::step(r, self.types(), self.subs(), self.payload()),
            },
    {
        proof {
            use_type_invariant(&self);
        }
        Self::stepped(self.progress.resume(chunk))
    }
}

/// Receives a fixed number of values.
#[derive(Debug, PartialEq, Eq)]
pub struct TupleReceiver<'a, const N: usize, T> {
    progress: Progress<'a, T>,
}

impl<'a, const N: usize, T> TupleReceiver<'a, N, T> {
    #[verifier::type_invariant]
    spec fn inv(self) -> bool {
        self.progress.wf() && self.progress.types@.len() == N
    }

    /// The types of the values.
    pub closed spec fn types(self) -> Seq<Type> {
        self.progress.type_seq()
    }

    /// The subscriptions of the values.
    pub closed spec fn subs(self) -> Seq<Option<SubModel<T>>> {
        self.progress.sub_seq()
    }

    /// The payload that has arrived.
    pub closed spec fn payload(self) -> Seq<u8> {
        self.progress.payload@
    }

    /// Whether this is what comes of the values of the types in a payload.
    pub open spec fn step(
        r: TupleStep<Self, [Val; N]>,
        types: Seq<Type>,
        subs: Seq<Option<SubModel<T>>>,
        b: Seq<u8>,
    ) -> bool {
        match r {
            TupleStep::Ready(vals, rest) => tuple_at(types, subs, b) matches Outcome::Done(vs, next)
                && vs == vals_model(vals@) && 0 <= next <= b.len() && rest@ == b.skip(next),
            TupleStep::Pending(next) => tuple_at(types, subs, b) is Incomplete && next.types()
                == types && next.subs() == subs && next.payload() == b,
            TupleStep::Resource(ty, at) => tuple_at(types, subs, b) matches Outcome::Resource(
                resource,
                next,
                _,
            ) && resource == ty && next == at,
            TupleStep::Failed(e) => tuple_at(types, subs, b) == Outcome::<
                Seq<ValModel>,
                T,
            >::Failed(e),
        }
    }

    fn stepped(advanced: Advanced<'a, T>) -> (r: TupleStep<Self, [Val; N]>)
        requires
            advanced matches Advanced::Ready(vals, _) ==> vals@.len() == N,
            advanced matches Advanced::Pending(progress) ==> progress.wf()
                && progress.types@.len() == N,
        ensures
            match advanced {
                Advanced::Ready(vals, rest) => r matches TupleStep::Ready(array, left) && array@
                    == vals@ && left == rest,
                Advanced::Pending(progress) => r matches TupleStep::Pending(next) && next.progress
                    == progress,
                Advanced::Resource(ty, at) => r == TupleStep::<Self, [Val; N]>::Resource(ty, at),
                Advanced::Failed(e) => r == TupleStep::<Self, [Val; N]>::Failed(e),
            },
    {
        match advanced {
            Advanced::Ready(vals, rest) => match into_array(vals) {
                Some(vals) => TupleStep::Ready(vals, rest),
                None => TupleStep::Failed(ReceiveError::UnexpectedEnd),
            },
            Advanced::Pending(progress) => TupleStep::Pending(TupleReceiver { progress }),
            Advanced::Resource(ty, at) => TupleStep::Resource(ty, at),
            Advanced::Failed(e) => TupleStep::Failed(e),
        }
    }

    /// Receives the values from the payload that has arrived.
    pub fn receive(self) -> (r: TupleStep<Self, [Val; N]>)
        ensures
            Self::step(r, self.types(), self.subs(), self.payload()),
    {
        proof {
            use_type_invariant(&self);
            lemma_sequence_len(self.types(), self.subs(), self.payload(), N as nat);
        }
        Self::stepped(self.progress.advance())
    }

    /// Receives the values from the payload and another chunk, or from the payload alone where
    /// there is no more: the values are then to be in it.
    pub fn resume(self, chunk: Option<Vec<u8>>) -> (r: TupleStep<Self, [Val; N]>)
        ensures
            match chunk {
                Some(chunk) => Self::step(
                    r,
                    self.types(),
                    self.subs(),
                    self.payload() + chunk@,
                ),
                None if tuple_at(self.types(), self.subs(), self.payload()) is Incomplete => r
                    == TupleStep::<Self, [Val; N]>::Failed(ReceiveError::UnexpectedEnd),
                None => Self::step(r, self.types(), self.subs(), self.payload()),
            },
    {
        proof {
            use_type_invariant(&self);
            let payload = if chunk is Some {
                self.payload() + chunk->0@
            } else {
                self.payload()
            };
            lemma_sequence_len(self.types(), self.subs(), payload, N as nat);
        }
        Self::stepped(self.progress.resume(chunk))
    }
}

/// Receives one value of a type that is only known at run time.
#[derive(Debug, PartialEq, Eq)]
pub struct ValueReceiver<'a, T> {
    ty: &'a Type,
    sub: Option<AsyncSubscription<T>>,
    payload: Vec<u8>,
}

impl<'a, T> ValueReceiver<'a, T> {
    /// The type of the value.
    pub closed spec fn ty(self) -> Type {
        *self.ty
    }

    /// The subscription of the value.
    pub closed spec fn sub(self) -> Option<SubModel<T>> {
        sub_model(self.sub)
    }

    /// The payload that has arrived.
    pub closed spec fn payload(self) -> Seq<u8> {
        self.payload@
    }

    /// Whether this is what comes of the value of the type in a payload.
    pub open spec fn step(
        r: TupleStep<Self, Val>,
        ty: Type,
        sub: Option<SubModel<T>>,
        b: Seq<u8>,
    ) -> bool {
        match r {
            TupleStep::Ready(val, rest) => receive(ty, sub, b, 0) matches Outcome::Done(v, next)
                && v == val@ && 0 <= next <= b.len() && rest@ == b.skip(next),
            TupleStep::Pending(next) => receive(ty, sub, b, 0) is Incomplete && next.ty() == ty
                && next.sub() == sub && next.payload() == b,
            TupleStep::Resource(resource, at) => receive(ty, sub, b, 0) matches Outcome::Resource(
                needed,
                next,
                _,
            ) && needed == resource && next == at,
            TupleStep::Failed(e) => receive(ty, sub, b, 0) == Outcome::<ValModel, T>::Failed(e),
        }
    }

    /// Makes a receiver of a value of the type, with its subscription and with what has arrived
    /// of the payload.
    pub fn new(ty: &'a Type, sub: Option<AsyncSubscription<T>>, payload: Vec<u8>) -> (r: Self)
        ensures
            r.ty() == *ty,
            r.sub() == sub_model(sub),
            r.payload() == payload@,
    {
        ValueReceiver { ty, sub, payload }
    }

    /// Receives the value from the payload that has arrived.
    pub fn receive(self) -> (r: TupleStep<Self, Val>)
        ensures
            Self::step(r, self.ty(), self.sub(), self.payload()),
    {
        let r: Received<'_, Val, T> = receive_value(
            self.payload.as_slice(),
            0,
            self.sub.as_ref(),
            self.ty,
        );
        proof {
            lemma_prefix_of_itself(self.payload@);
            receive_extends(*self.ty, self.sub(), self.payload@, self.payload@, 0);
        }
        match r {
            Received::Done(v, next) => {
                let mut payload: Vec<u8> = self.payload;
                let rest: Vec<u8> = payload.split_off(next);
                assert(rest@ =~= self.payload@.skip(next as int));
                TupleStep::Ready(v, rest)
            },
            Received::Incomplete => TupleStep::Pending(self),
            Received::Resource(ty, at, _) => TupleStep::Resource(ty, at),
            Received::Failed(e) => TupleStep::Failed(e),
        }
    }

    /// Receives the value from the payload and another chunk, or from the payload alone where
    /// there is no more: the value is then to be in it.
    pub fn resume(self, chunk: Option<Vec<u8>>) -> (r: TupleStep<Self, Val>)
        ensures
            match chunk {
                Some(chunk) => Self::step(r, self.ty(), self.sub(), self.payload() + chunk@),
                None if receive(self.ty(), self.sub(), self.payload(), 0) is Incomplete => r
                    == TupleStep::<Self, Val>::Failed(ReceiveError::UnexpectedEnd),
                None => Self::step(r, self.ty(), self.sub(), self.payload()),
            },
    {
        match chunk {
            Some(mut chunk) => {
                let mut receiver: ValueReceiver<'a, T> = self;
                receiver.payload.append(&mut chunk);
                receiver.receive()
            },
            None => match self.receive() {
                TupleStep::Pending(_) => TupleStep::Failed(ReceiveError::UnexpectedEnd),
                step => step,
            },
        }
    }
}

proof fn lemma_sequence_len<T>(
    types: Seq<Type>,
    subs: Seq<Option<SubModel<T>>>,
    b: Seq<u8>,
    n: nat,
)
    ensures
        sequence(types, subs, b, n) matches Outcome::Done(vs, _) ==> vs.len() == n,
    decreases n,
{
    if n > 0 {
        lemma_sequence_len(types, subs, b, (n - 1) as nat);
    }
}

/// The subscriptions, none of which need be there.
pub open spec fn or_empty<V>(subs: Option<Seq<Option<V>>>) -> Seq<Option<V>> {
    match subs {
        Some(subs) => subs,
        None => Seq::empty(),
    }
}

/// Makes a receiver of a fixed number of values, with the replies for their resources.
pub fn subscribe_component_tuple<'a, const N: usize, T>(
    types: [&'a Type; N],
    payload: Vec<u8>,
    replies: &mut VecDeque<Option<AsyncSubscription<T>>>,
) -> (r: TupleReceiver<'a, N, T>)
    requires
        listed_resources(present_refs(types@), N as nat) <= old(replies)@.len(),
    ensures
        r.types() == deref_types(types@),
        r.subs() == or_empty(
            unless_none(listed_subs(present_refs(types@), subs_model(old(replies)@), N as nat)),
        ),
        r.payload() == payload@,
        final(replies)@ == old(replies)@.skip(
            listed_resources(present_refs(types@), N as nat) as int,
        ),
{
    let mut borrowed: Vec<&'a Type> = Vec::new();
    let mut listed: Vec<Option<&Type>> = Vec::new();
    let mut i: usize = 0;
    while i < N
        invariant
            i <= N,
            types@.len() == N,
            borrowed@ == types@.take(i as int),
            listed@.len() == i,
            forall|j: int| 0 <= j < i ==> #[trigger] listed@[j] == Some(types@[j]),
        decreases N - i,
    {
        borrowed.push(types[i]);
        listed.push(Some(types[i]));
        i = i + 1;
        assert(types@.take(i as int) =~= types@.take(i - 1).push(types@[i - 1]));
    }
    assert(borrowed@ =~= types@);
    assert(optional_refs(listed@) =~= present_refs(types@));
    let nested: Vec<Option<AsyncSubscription<T>>> = match subscribe_component_async_iter_optional(
        listed.as_slice(),
        replies,
    ) {
        Some(subs) => subs,
        None => Vec::new(),
    };
    let vals: Vec<Val> = Vec::new();
    assert(vals_model(vals@) =~= Seq::empty());
    assert(subs_model(nested@) =~= or_empty(
        unless_none(listed_subs(present_refs(types@), subs_model(old(replies)@), N as nat)),
    ));
    TupleReceiver { progress: Progress { nested, types: borrowed, payload, at: 0, vals } }
}

/// Makes a receiver of values of the types, with the replies for their resources.
pub fn subscribe_component_tuple_dynamic<'a, T>(
    types: &'a [Type],
    payload: Vec<u8>,
    replies: &mut VecDeque<Option<AsyncSubscription<T>>>,
) -> (r: TupleDynamicReceiver<'a, T>)
    requires
        listed_resources(present(types@), types@.len()) <= old(replies)@.len(),
    ensures
        r.types() == types@,
        r.subs() == or_empty(
            unless_none(listed_subs(present(types@), subs_model(old(replies)@), types@.len())),
        ),
        r.payload() == payload@,
        final(replies)@ == old(replies)@.skip(
            listed_resources(present(types@), types@.len()) as int,
        ),
{
    let mut borrowed: Vec<&'a Type> = Vec::new();
    let mut i: usize = 0;
    while i < types.len()
        invariant
            i <= types@.len(),
            borrowed@.len() == i,
            forall|j: int| 0 <= j < i ==> #[trigger] borrowed@[j] == &types@[j],
        decreases types@.len() - i,
    {
        borrowed.push(&types[i]);
        i = i + 1;
    }
    assert(deref_types(borrowed@) =~= types@);
    let nested: Vec<Option<AsyncSubscription<T>>> = match subscribe_component_async_iter(
        types,
        replies,
    ) {
        Some(subs) => subs,
        None => Vec::new(),
    };
    let vals: Vec<Val> = Vec::new();
    assert(vals_model(vals@) =~= Seq::empty());
    assert(subs_model(nested@) =~= or_empty(
        unless_none(listed_subs(present(types@), subs_model(old(replies)@), types@.len())),
    ));
    TupleDynamicReceiver { progress: Progress { nested, types: borrowed, payload, at: 0, vals } }
}

proof fn lemma_sequence_as_elements<T>(
    types: Vec<Type>,
    subs: Option<Seq<Option<SubModel<T>>>>,
    b: Seq<u8>,
    n: nat,
)
    requires
        n <= types@.len(),
    ensures
        elements(Type::Tuple(types), subs, b, 0, n) == sequence(
            types@,
            or_empty(subs),
            b,
            n,
        ),
    decreases n,
{
    if n > 0 {
        lemma_sequence_as_elements(types, subs, b, (n - 1) as nat);
        assert(sub_at(subs, n - 1) == sub_at(Some(or_empty(subs)), n - 1));
    }
}

/// Values that are received one after the other are the elements of the tuple that is received
/// from the same payload.
pub proof fn tuple_as_value<T>(
    types: Vec<Type>,
    subs: Option<Seq<Option<SubModel<T>>>>,
    b: Seq<u8>,
)
    ensures
        receive(
            Type::Tuple(types),
            match subs {
                Some(subs) => Some(SubModel::Tuple(subs)),
                None => None,
            },
            b,
            0,
        ) == map_outcome(
            tuple_at(types@, or_empty(subs), b),
            |vs: Seq<ValModel>| ValModel::Tuple(vs),
        ),
{
    lemma_sequence_as_elements(types, subs, b, types@.len());
}

/// Values whose payloads come one after the other, in whatever chunks, are received.
pub proof fn encoded_tuple_is_received<T>(types: Vec<Type>, vals: Seq<ValModel>, b: Seq<u8>)
    requires
        typed(ValModel::Tuple(vals), Type::Tuple(types)),
        holds_at(b, 0, encoding(Type::Tuple(types), ValModel::Tuple(vals))),
        encoding(Type::Tuple(types), ValModel::Tuple(vals)).len() + slack(
            Type::Tuple(types),
            ValModel::Tuple(vals),
        ) <= b.len(),
    ensures
        tuple_at::<T>(types@, Seq::empty(), b) == Outcome::<Seq<ValModel>, T>::Done(
            vals,
            encoding(Type::Tuple(types), ValModel::Tuple(vals)).len() as int,
        ),
{
    encoded_value_is_received::<T>(Type::Tuple(types), ValModel::Tuple(vals), b, 0);
    tuple_as_value::<T>(types, None, b);
}

/// Receiving several values of types that are only known at run time gives what the payload that
/// has arrived holds, and what is left of it.
pub proof fn dynamic_tuple_from_payload<T>(
    w: TupleDynamicReceiver<T>,
    r: TupleStep<TupleDynamicReceiver<T>, Vec<Val>>,
)
    requires
        call_ensures(TupleDynamicReceiver::<T>::receive, (w,), r),
    ensures
        ({
            let b = w.payload();
            let o = tuple_at(w.types(), w.subs(), b);
            match r {
                TupleStep::Ready(vals, rest) => {
                    &&& o matches Outcome::Done(vs, next)
                    &&& vs.len() == vals@.len()
                    &&& forall|i: int| 0 <= i < vs.len() ==> #[trigger] vs[i] == vals@[i]@
                    &&& 0 <= next <= b.len()
                    &&& rest@ == b.skip(next)
                },
                TupleStep::Pending(next) => {
                    &&& o is Incomplete
                    &&& next.types() == w.types()
                    &&& next.subs() == w.subs()
                    &&& next.payload() == b
                },
                TupleStep::Resource(ty, at) => o matches Outcome::Resource(resource, next, _)
                    && resource == ty && next == at,
                TupleStep::Failed(e) => o == Outcome::<Seq<ValModel>, T>::Failed(e),
            }
        }),
{
}

/// Another chunk is taken for the rest of the payload.
pub proof fn dynamic_tuple_from_chunk<T>(
    w: TupleDynamicReceiver<T>,
    chunk: Vec<u8>,
    r: TupleStep<TupleDynamicReceiver<T>, Vec<Val>>,
)
    requires
        call_ensures(TupleDynamicReceiver::<T>::resume, (w, Some(chunk)), r),
    ensures
        ({
            let b = w.payload() + chunk@;
            let o = tuple_at(w.types(), w.subs(), b);
            match r {
                TupleStep::Ready(vals, rest) => {
                    &&& o matches Outcome::Done(vs, next)
                    &&& vs.len() == vals@.len()
                    &&& forall|i: int| 0 <= i < vs.len() ==> #[trigger] vs[i] == vals@[i]@
                    &&& 0 <= next <= b.len()
                    &&& rest@ == b.skip(next)
                },
                TupleStep::Pending(next) => {
                    &&& o is Incomplete
                    &&& next.types() == w.types()
                    &&& next.subs() == w.subs()
                    &&& next.payload() == b
                },
                TupleStep::Resource(ty, at) => o matches Outcome::Resource(resource, next, _)
                    && resource == ty && next == at,
                TupleStep::Failed(e) => o == Outcome::<Seq<ValModel>, T>::Failed(e),
            }
        }),
{
}

/// Where there is no more, what is not all there has ended too early.
pub proof fn dynamic_tuple_at_end<T>(
    w: TupleDynamicReceiver<T>,
    r: TupleStep<TupleDynamicReceiver<T>, Vec<Val>>,
)
    requires
        call_ensures(TupleDynamicReceiver::<T>::resume, (w, None::<Vec<u8>>), r),
    ensures
        ({
            let b = w.payload();
            let o = tuple_at(w.types(), w.subs(), b);
            match r {
                TupleStep::Ready(vals, rest) => {
                    &&& o matches Outcome::Done(vs, next)
                    &&& vs.len() == vals@.len()
                    &&& forall|i: int| 0 <= i < vs.len() ==> #[trigger] vs[i] == vals@[i]@
                    &&& 0 <= next <= b.len()
                    &&& rest@ == b.skip(next)
                },
                TupleStep::Pending(_) => false,
                TupleStep::Resource(ty, at) => o matches Outcome::Resource(resource, next, _)
                    && resource == ty && next == at,
                TupleStep::Failed(e) => o == Outcome::<Seq<ValModel>, T>::Failed(e) || (
                o is Incomplete && e == ReceiveError::UnexpectedEnd),
            }
        }),
{
}

/// Receiving a fixed number of values gives what the payload that has arrived holds, and what is
/// left of it.
pub proof fn fixed_tuple_from_payload<const N: usize, T>(
    w: TupleReceiver<N, T>,
    r: TupleStep<TupleReceiver<N, T>, [Val; N]>,
)
    requires
        call_ensures(TupleReceiver::<N, T>::receive, (w,), r),
    ensures
        ({
            let b = w.payload();
            let o = tuple_at(w.types(), w.subs(), b);
            match r {
                TupleStep::Ready(vals, rest) => {
                    &&& o matches Outcome::Done(vs, next)
                    &&& vs.len() == vals@.len()
                    &&& forall|i: int| 0 <= i < vs.len() ==> #[trigger] vs[i] == vals@[i]@
                    &&& 0 <= next <= b.len()
                    &&& rest@ == b.skip(next)
                },
                TupleStep::Pending(next) => {
                    &&& o is Incomplete
                    &&& next.types() == w.types()
                    &&& next.subs() == w.subs()
                    &&& next.payload() == b
                },
                TupleStep::Resource(ty, at) => o matches Outcome::Resource(resource, next, _)
                    && resource == ty && next == at,
                TupleStep::Failed(e) => o == Outcome::<Seq<ValModel>, T>::Failed(e),
            }
        }),
{
}

/// Another chunk is taken for the rest of the payload.
pub proof fn fixed_tuple_from_chunk<const N: usize, T>(
    w: TupleReceiver<N, T>,
    chunk: Vec<u8>,
    r: TupleStep<TupleReceiver<N, T>, [Val; N]>,
)
    requires
        call_ensures(TupleReceiver::<N, T>::resume, (w, Some(chunk)), r),
    ensures
        ({
            let b = w.payload() + chunk@;
            let o = tuple_at(w.types(), w.subs(), b);
            match r {
                TupleStep::Ready(vals, rest) => {
                    &&& o matches Outcome::Done(vs, next)
                    &&& vs.len() == vals@.len()
                    &&& forall|i: int| 0 <= i < vs.len() ==> #[trigger] vs[i] == vals@[i]@
                    &&& 0 <= next <= b.len()
                    &&& rest@ == b.skip(next)
                },
                TupleStep::Pending(next) => {
                    &&& o is Incomplete
                    &&& next.types() == w.types()
                    &&& next.subs() == w.subs()
                    &&& next.payload() == b
                },
                TupleStep::Resource(ty, at) => o matches Outcome::Resource(resource, next, _)
                    && resource == ty && next == at,
                TupleStep::Failed(e) => o == Outcome::<Seq<ValModel>, T>::Failed(e),
            }
        }),
{
}

/// Where there is no more, what is not all there has ended too early.
pub proof fn fixed_tuple_at_end<const N: usize, T>(
    w: TupleReceiver<N, T>,
    r: TupleStep<TupleReceiver<N, T>, [Val; N]>,
)
    requires
        call_ensures(TupleReceiver::<N, T>::resume, (w, None::<Vec<u8>>), r),
    ensures
        ({
            let b = w.payload();
            let o = tuple_at(w.types(), w.subs(), b);
            match r {
                TupleStep::Ready(vals, rest) => {
                    &&& o matches Outcome::Done(vs, next)
                    &&& vs.len() == vals@.len()
                    &&& forall|i: int| 0 <= i < vs.len() ==> #[trigger] vs[i] == vals@[i]@
                    &&& 0 <= next <= b.len()
                    &&& rest@ == b.skip(next)
                },
                TupleStep::Pending(_) => false,
                TupleStep::Resource(ty, at) => o matches Outcome::Resource(resource, next, _)
                    && resource == ty && next == at,
                TupleStep::Failed(e) => o == Outcome::<Seq<ValModel>, T>::Failed(e) || (
                o is Incomplete && e == ReceiveError::UnexpectedEnd),
            }
        }),
{
}

/// Receiving one value gives what the payload that has arrived holds, and what is left of it.
pub proof fn value_from_payload<T>(w: ValueReceiver<T>, r: TupleStep<ValueReceiver<T>, Val>)
    requires
        call_ensures(ValueReceiver::<T>::receive, (w,), r),
    ensures
        ({
            let b = w.payload();
            let o = receive(w.ty(), w.sub(), b, 0);
            match r {
                TupleStep::Ready(val, rest) => {
                    &&& o matches Outcome::Done(v, next)
                    &&& v == val@
                    &&& 0 <= next <= b.len()
                    &&& rest@ == b.skip(next)
                },
                TupleStep::Pending(next) => {
                    &&& o is Incomplete
                    &&& next.ty() == w.ty()
                    &&& next.sub() == w.sub()
                    &&& next.payload() == b
                },
                TupleStep::Resource(ty, at) => o matches Outcome::Resource(resource, next, _)
                    && resource == ty && next == at,
                TupleStep::Failed(e) => o == Outcome::<ValModel, T>::Failed(e),
            }
        }),
{
}

/// Another chunk is taken for the rest of the payload.
pub proof fn value_from_chunk<T>(
    w: ValueReceiver<T>,
    chunk: Vec<u8>,
    r: TupleStep<ValueReceiver<T>, Val>,
)
    requires
        call_ensures(ValueReceiver::<T>::resume, (w, Some(chunk)), r),
    ensures
        ({
            let b = w.payload() + chunk@;
            let o = receive(w.ty(), w.sub(), b, 0);
            match r {
                TupleStep::Ready(val, rest) => {
                    &&& o matches Outcome::Done(v, next)
                    &&& v == val@
                    &&& 0 <= next <= b.len()
                    &&& rest@ == b.skip(next)
                },
                TupleStep::Pending(next) => {
                    &&& o is Incomplete
                    &&& next.ty() == w.ty()
                    &&& next.sub() == w.sub()
                    &&& next.payload() == b
                },
                TupleStep::Resource(ty, at) => o matches Outcome::Resource(resource, next, _)
                    && resource == ty && next == at,
                TupleStep::Failed(e) => o == Outcome::<ValModel, T>::Failed(e),
            }
        }),
{
}

/// Where there is no more, what is not all there has ended too early.
pub proof fn value_at_end<T>(w: ValueReceiver<T>, r: TupleStep<ValueReceiver<T>, Val>)
    requires
        call_ensures(ValueReceiver::<T>::resume, (w, None::<Vec<u8>>), r),
    ensures
        ({
            let b = w.payload();
            let o = receive(w.ty(), w.sub(), b, 0);
            match r {
                TupleStep::Ready(val, rest) => {
                    &&& o matches Outcome::Done(v, next)
                    &&& v == val@
                    &&& 0 <= next <= b.len()
                    &&& rest@ == b.skip(next)
                },
                TupleStep::Pending(_) => false,
                TupleStep::Resource(ty, at) => o matches Outcome::Resource(resource, next, _)
                    && resource == ty && next == at,
                TupleStep::Failed(e) => o == Outcome::<ValModel, T>::Failed(e) || (o is Incomplete
                    && e == ReceiveError::UnexpectedEnd),
            }
        }),
{
}

/// Values are received one after the other, each from where the one before it ended, as far as
/// they can be; what stops one of them stops all. Each has the subscription of its place.
pub proof fn tuple_by_values<T>(
    types: Seq<Type>,
    subs: Seq<Option<SubModel<T>>>,
    b: Seq<u8>,
    n: nat,
) -> (ends: Seq<int>)
    requires
        n <= types.len(),
    ensures
        1 <= ends.len() <= n + 1,
        ends[0] == 0,
        forall|i: int|
            0 <= i < ends.len() - 1 ==> (receive(
                #[trigger] types[i],
                if i < subs.len() {
                    subs[i]
                } else {
                    None
                },
                b,
                ends[i],
            ) matches Outcome::Done(_, next) && next == ends[i + 1]),
        ends.len() == n + 1 ==> {
            &&& sequence(types, subs, b, n) matches Outcome::Done(vs, next)
            &&& next == ends[n as int]
            &&& vs.len() == n
            &&& forall|i: int|
                0 <= i < n ==> receive(
                    #[trigger] types[i],
                    if i < subs.len() {
                        subs[i]
                    } else {
                        None
                    },
                    b,
                    ends[i],
                ) == Outcome::<ValModel, T>::Done(vs[i], ends[i + 1])
        },
        ends.len() <= n ==> match receive(
            types[ends.len() - 1],
            if ends.len() - 1 < subs.len() {
                subs[ends.len() - 1]
            } else {
                None
            },
            b,
            ends.last(),
        ) {
            Outcome::Done(_, _) => false,
            Outcome::Incomplete => sequence(types, subs, b, n) is Incomplete,
            Outcome::Resource(ty, next, s) => sequence(types, subs, b, n) == Outcome::<
                Seq<ValModel>,
                T,
            >::Resource(ty, next, s),
            Outcome::Failed(e) => sequence(types, subs, b, n) == Outcome::<
                Seq<ValModel>,
                T,
            >::Failed(e),
        },
    decreases n,
{
    if n == 0 {
        seq![0int]
    } else {
        let m = (n - 1) as nat;
        let ends = tuple_by_values(types, subs, b, m);
        if ends.len() == n {
            match receive(types[n - 1], sub_at(Some(subs), n - 1), b, ends.last()) {
                Outcome::Done(v, next) => {
                    let more = ends.push(next);
                    let vs = sequence(types, subs, b, m)->Done_0;
                    assert(sequence(types, subs, b, n) == Outcome::<Seq<ValModel>, T>::Done(
                        vs.push(v),
                        next,
                    ));
                    assert forall|i: int| 0 <= i < n implies receive(
                        #[trigger] types[i],
                        if i < subs.len() {
                            subs[i]
                        } else {
                            None
                        },
                        b,
                        more[i],
                    ) == Outcome::<ValModel, T>::Done(vs.push(v)[i], more[i + 1]) by {}
                    more
                },
                _ => ends,
            }
        } else {
            ends
        }
    }
}

/// All values are those of all types.
pub proof fn tuple_of_all_types<T>(
    types: Seq<Type>,
    subs: Seq<Option<SubModel<T>>>,
    b: Seq<u8>,
)
    ensures
        tuple_at(types, subs, b) == sequence(types, subs, b, types.len()),
{
}

/// Types that are borrowed are those types, and subscriptions that are not there are none.
pub proof fn types_and_subscriptions<V>(types: Seq<&Type>, subs: Seq<Option<V>>)
    ensures
        deref_types(types).len() == types.len(),
        forall|i: int| 0 <= i < types.len() ==> #[trigger] deref_types(types)[i] == *types[i],
        or_empty(Some(subs)) == subs,
        or_empty(None::<Seq<Option<V>>>).len() == 0,
{
}

/// A value on its own is received as any value is, with its content.
pub proof fn value_on_its_own<'a, T>(
    ty: &Type,
    payload: &[u8],
    at: usize,
    sub: Option<&'a AsyncSubscription<T>>,
    r: Received<'a, Value, T>,
)
    requires
        call_ensures(Value::receive_context::<T>, (ty, payload, at, sub), r),
    ensures
        ({
            let content = match sub {
                Some(sub) => Some(sub@),
                None => None,
            };
            match r {
                Received::Done(v, next) => receive(*ty, content, payload@, at as int) == Outcome::<
                    ValModel,
                    T,
                >::Done(v.0@, next as int),
                Received::Incomplete => receive(*ty, content, payload@, at as int) is Incomplete,
                Received::Resource(resource, next, sub) => receive(
                    *ty,
                    content,
                    payload@,
                    at as int,
                ) == Outcome::<ValModel, T>::Resource(
                    resource,
                    next as int,
                    match sub {
                        Some(sub) => Some(sub@),
                        None => None,
                    },
                ),
                Received::Failed(e) => receive(*ty, content, payload@, at as int) == Outcome::<
                    ValModel,
                    T,
                >::Failed(e),
            }
        }),
{
}

} // verus!
