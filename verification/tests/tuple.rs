use std::collections::VecDeque;

use wrpc::receive::{receive_value, Received};
use wrpc::scan::ReceiveError;
use wrpc::subscription::AsyncSubscription;
use wrpc::tuple::{
    subscribe_component_tuple, subscribe_component_tuple_dynamic, TupleDynamicReceiver, TupleStep,
    Value, ValueReceiver,
};
use wrpc::value::{Type, Val};

fn types() -> Vec<Type> {
    vec![Type::U32, Type::String, Type::Option(Box::new(Type::Bool))]
}

fn vals() -> Vec<Val> {
    vec![
        Val::U32(300),
        Val::String("hey".to_string()),
        Val::Option(Some(Box::new(Val::Bool(true)))),
    ]
}

const PAYLOAD: [u8; 8] = [0xac, 2, 3, b'h', b'e', b'y', 1, 1];

fn dynamic(types: &[Type], payload: Vec<u8>) -> TupleDynamicReceiver<'_, ()> {
    subscribe_component_tuple_dynamic(types, payload, &mut VecDeque::new())
}

#[test]
fn values_are_received_at_once() {
    let types = types();
    let mut payload = PAYLOAD.to_vec();
    payload.extend_from_slice(&[8, 9]);
    match dynamic(&types, payload).receive() {
        TupleStep::Ready(received, rest) => {
            assert_eq!(received, vals());
            assert_eq!(rest, vec![8, 9]);
        }
        step => panic!("unexpected step {step:?}"),
    }
}

#[test]
fn chunks_make_no_difference() {
    let types = types();
    for first in 0..PAYLOAD.len() {
        for second in first..PAYLOAD.len() {
            let receiver = match dynamic(&types, PAYLOAD[..first].to_vec()).receive() {
                TupleStep::Pending(receiver) => receiver,
                step => panic!("unexpected step {step:?}"),
            };
            let receiver = match receiver.resume(Some(PAYLOAD[first..second].to_vec())) {
                TupleStep::Pending(receiver) => receiver,
                step => panic!("unexpected step {step:?}"),
            };
            match receiver.resume(Some(PAYLOAD[second..].to_vec())) {
                TupleStep::Ready(received, rest) => {
                    assert_eq!(received, vals());
                    assert!(rest.is_empty());
                }
                step => panic!("unexpected step {step:?}"),
            }
        }
    }
}

#[test]
fn payloads_that_end_early_are_refused() {
    let types = types();
    let receiver = match dynamic(&types, vec![1]).receive() {
        TupleStep::Pending(receiver) => receiver,
        step => panic!("unexpected step {step:?}"),
    };
    assert_eq!(
        receiver.resume(None),
        TupleStep::Failed(ReceiveError::UnexpectedEnd)
    );
}

#[test]
fn a_payload_that_has_arrived_needs_no_more() {
    let types = types();
    let mut payload = PAYLOAD.to_vec();
    payload.push(7);
    assert_eq!(
        dynamic(&types, payload).resume(None),
        TupleStep::Ready(vals(), vec![7])
    );
    assert_eq!(
        dynamic(&types, PAYLOAD[..7].to_vec()).resume(None),
        TupleStep::Failed(ReceiveError::UnexpectedEnd)
    );
    assert_eq!(
        dynamic(&types, vec![1, 1, 0xff]).resume(None),
        TupleStep::Failed(ReceiveError::InvalidUtf8)
    );
    assert_eq!(
        dynamic(&[Type::Own(3)], vec![]).resume(None),
        TupleStep::Resource(3, 0)
    );
    let borrowed = [&types[0], &types[1], &types[2]];
    match subscribe_component_tuple::<3, ()>(borrowed, PAYLOAD.to_vec(), &mut VecDeque::new())
        .resume(None)
    {
        TupleStep::Ready(received, rest) => {
            assert_eq!(Vec::from(received), vals());
            assert!(rest.is_empty());
        }
        step => panic!("unexpected step {step:?}"),
    }
    assert_eq!(
        subscribe_component_tuple::<3, ()>(borrowed, vec![1], &mut VecDeque::new()).resume(None),
        TupleStep::Failed(ReceiveError::UnexpectedEnd)
    );
}

#[test]
fn invalid_payloads_are_refused() {
    let types = types();
    assert_eq!(
        dynamic(&types, vec![1, 1, 0xff]).receive(),
        TupleStep::Failed(ReceiveError::InvalidUtf8)
    );
}

#[test]
fn nothing_is_received_from_nothing() {
    assert_eq!(
        dynamic(&[], vec![4]).receive(),
        TupleStep::Ready(vec![], vec![4])
    );
}

#[test]
fn a_fixed_number_of_values_is_received() {
    let types = types();
    let borrowed = [&types[0], &types[1], &types[2]];
    let receiver =
        subscribe_component_tuple::<3, ()>(borrowed, PAYLOAD[..4].to_vec(), &mut VecDeque::new());
    let receiver = match receiver.receive() {
        TupleStep::Pending(receiver) => receiver,
        step => panic!("unexpected step {step:?}"),
    };
    match receiver.resume(Some(PAYLOAD[4..].to_vec())) {
        TupleStep::Ready(received, rest) => {
            assert_eq!(Vec::from(received), vals());
            assert!(rest.is_empty());
        }
        step => panic!("unexpected step {step:?}"),
    }
}

#[test]
fn resources_stop_the_receiver() {
    let types = [Type::U8, Type::Own(6)];
    let mut replies = VecDeque::from(vec![Some(AsyncSubscription::Future {
        subscriber: 1u8,
        nested: None,
    })]);
    let receiver = subscribe_component_tuple_dynamic(&types, vec![3], &mut replies);
    assert!(replies.is_empty());
    assert_eq!(receiver.receive(), TupleStep::Resource(6, 1));
}

#[test]
fn values_are_those_of_a_tuple() {
    assert_eq!(
        receive_value(
            &PAYLOAD,
            0,
            None::<&AsyncSubscription<()>>,
            &Type::Tuple(types())
        ),
        Received::Done(Val::Tuple(vals()), PAYLOAD.len())
    );
    assert_eq!(
        Value::receive_context(&Type::U32, &PAYLOAD, 0, None::<&AsyncSubscription<()>>),
        Received::Done(Value(Val::U32(300)), 2)
    );
}

#[test]
fn a_value_is_received_in_chunks() {
    let ty = Type::Tuple(types());
    for cut in 0..PAYLOAD.len() {
        let receiver = ValueReceiver::<()>::new(&ty, None, PAYLOAD[..cut].to_vec());
        let receiver = match receiver.receive() {
            TupleStep::Pending(receiver) => receiver,
            step => panic!("unexpected step {step:?}"),
        };
        let mut chunk = PAYLOAD[cut..].to_vec();
        chunk.push(9);
        assert_eq!(
            receiver.resume(Some(chunk)),
            TupleStep::Ready(Val::Tuple(vals()), vec![9])
        );
        assert_eq!(
            ValueReceiver::<()>::new(&ty, None, PAYLOAD[..cut].to_vec()).resume(None),
            TupleStep::Failed(ReceiveError::UnexpectedEnd)
        );
    }
    assert_eq!(
        ValueReceiver::<()>::new(&ty, None, PAYLOAD.to_vec()).resume(None),
        TupleStep::Ready(Val::Tuple(vals()), vec![])
    );
    assert_eq!(
        ValueReceiver::<()>::new(&Type::Char, None, vec![0x80, 0xb0, 3]).receive(),
        TupleStep::Failed(ReceiveError::InvalidChar)
    );
}

#[test]
fn a_value_is_received_with_its_subscription() {
    let ty = Type::Tuple(vec![Type::U8, Type::Borrow(4)]);
    let sub = AsyncSubscription::Tuple(vec![
        None,
        Some(AsyncSubscription::Future {
            subscriber: 1u8,
            nested: None,
        }),
    ]);
    assert_eq!(
        ValueReceiver::new(&ty, Some(sub), vec![5]).receive(),
        TupleStep::Resource(4, 1)
    );
    assert_eq!(
        ValueReceiver::new(
            &ty,
            Some(AsyncSubscription::<u8>::Record(vec![])),
            vec![5]
        )
        .receive(),
        TupleStep::Failed(ReceiveError::TupleSubscription)
    );
}

#[test]
fn values_are_received_in_parts() {
    let types = types();
    let mut rest = PAYLOAD.to_vec();
    rest.push(9);
    let mut received = Vec::new();
    for ty in &types {
        match ValueReceiver::<()>::new(ty, None, rest).receive() {
            TupleStep::Ready(val, left) => {
                received.push(val);
                rest = left;
            }
            step => panic!("unexpected step {step:?}"),
        }
    }
    assert_eq!(received, vals());
    assert_eq!(rest, vec![9]);
}
