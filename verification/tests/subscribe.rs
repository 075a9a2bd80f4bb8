use std::collections::VecDeque;

use wrpc::receive::{receive_value, Received};
use wrpc::scan::ReceiveError;
use wrpc::subscribe::{
    all_present, listed_resource_requests, resource_requests, subscribe_component_async,
    subscribe_component_async_array, subscribe_component_async_array_optional,
    subscribe_component_async_iter, subscribe_component_async_iter_optional, Request,
};
use wrpc::subscription::AsyncSubscription;
use wrpc::value::{Case, Field, Type};

fn future(subscriber: u8) -> AsyncSubscription<u8> {
    AsyncSubscription::Future {
        subscriber,
        nested: None,
    }
}

fn replies(subs: Vec<Option<u8>>) -> VecDeque<Option<AsyncSubscription<u8>>> {
    subs.into_iter().map(|sub| sub.map(future)).collect()
}

fn request(path: Vec<Option<u64>>, resource: u32) -> Request {
    Request { path, resource }
}

/// A record that has a resource in every place that one can be in.
fn everything() -> Type {
    Type::Record(vec![
        Field {
            name: "list".to_string(),
            ty: Type::List(Box::new(Type::Own(1))),
        },
        Field {
            name: "plain".to_string(),
            ty: Type::Flags(vec![]),
        },
        Field {
            name: "variant".to_string(),
            ty: Type::Variant(vec![
                Case {
                    name: "none".to_string(),
                    ty: None,
                },
                Case {
                    name: "some".to_string(),
                    ty: Some(Type::Borrow(2)),
                },
            ]),
        },
        Field {
            name: "option".to_string(),
            ty: Type::Option(Box::new(Type::Tuple(vec![Type::U8, Type::Own(3)]))),
        },
        Field {
            name: "result".to_string(),
            ty: Type::Result {
                ok: Some(Box::new(Type::Own(4))),
                err: Some(Box::new(Type::Own(5))),
            },
        },
    ])
}

#[test]
fn requests_name_the_subject_of_each_resource() {
    assert_eq!(
        resource_requests(&everything()),
        vec![
            request(vec![Some(0), None], 1),
            request(vec![Some(2), Some(1)], 2),
            request(vec![Some(3), Some(1), Some(1)], 3),
            request(vec![Some(4), Some(0)], 4),
            request(vec![Some(4), Some(1)], 5),
        ]
    );
    assert_eq!(resource_requests(&Type::Own(9)), vec![request(vec![], 9)]);
    assert_eq!(resource_requests(&Type::String), vec![]);
}

#[test]
fn replies_end_up_in_the_place_of_their_resource() {
    let mut all = replies(vec![Some(1), Some(2), Some(3), Some(4), Some(5), Some(6)]);
    assert_eq!(
        subscribe_component_async(&everything(), &mut all),
        Some(AsyncSubscription::Record(vec![
            Some(AsyncSubscription::List(Box::new(future(1)))),
            None,
            Some(AsyncSubscription::Variant(vec![None, Some(future(2))])),
            Some(AsyncSubscription::Option(Box::new(AsyncSubscription::Tuple(vec![
                None,
                Some(future(3)),
            ])))),
            Some(AsyncSubscription::Result {
                ok: Some(Box::new(future(4))),
                err: Some(Box::new(future(5))),
            }),
        ]))
    );
    assert_eq!(all, replies(vec![Some(6)]));
}

#[test]
fn one_reply_is_enough_for_a_subscription() {
    let mut one = replies(vec![None, None, None, None, Some(5)]);
    assert_eq!(
        subscribe_component_async(&everything(), &mut one),
        Some(AsyncSubscription::Record(vec![
            None,
            None,
            None,
            None,
            Some(AsyncSubscription::Result {
                ok: None,
                err: Some(Box::new(future(5))),
            }),
        ]))
    );
}

#[test]
fn without_replies_there_is_no_subscription() {
    let mut none = replies(vec![None, None, None, None, None]);
    assert_eq!(subscribe_component_async(&everything(), &mut none), None);
    assert!(none.is_empty());
    let plain = Type::Tuple(vec![Type::U8, Type::List(Box::new(Type::String))]);
    assert_eq!(subscribe_component_async(&plain, &mut none), None);
}

#[test]
fn types_are_subscribed_for_one_by_one() {
    let types = [Type::U8, Type::Own(1), Type::Option(Box::new(Type::Own(2)))];
    let expected = Some(vec![
        None,
        Some(future(7)),
        Some(AsyncSubscription::Option(Box::new(future(8)))),
    ]);
    assert_eq!(
        listed_resource_requests(&all_present(&types)),
        vec![request(vec![Some(1)], 1), request(vec![Some(2), Some(1)], 2)]
    );
    assert_eq!(
        subscribe_component_async_iter(&types, &mut replies(vec![Some(7), Some(8)])),
        expected
    );
    assert_eq!(
        subscribe_component_async_array(
            [&types[0], &types[1], &types[2]],
            &mut replies(vec![Some(7), Some(8)])
        )
        .map(Vec::from),
        expected
    );
    assert_eq!(
        subscribe_component_async_iter(&types, &mut replies(vec![None, None])),
        None
    );
}

#[test]
fn types_are_subscribed_for_as_a_tuple_is() {
    let types = vec![Type::Own(1), Type::U8, Type::Borrow(2)];
    let listed = listed_resource_requests(&all_present(&types));
    let subs = subscribe_component_async_iter(&types, &mut replies(vec![None, Some(4)]));
    let tuple = Type::Tuple(types);
    assert_eq!(resource_requests(&tuple), listed);
    assert_eq!(
        subscribe_component_async(&tuple, &mut replies(vec![None, Some(4)])),
        subs.map(AsyncSubscription::Tuple)
    );
}

#[test]
fn types_that_are_not_there_have_no_subscription() {
    let own = Type::Own(1);
    for present in 0..4usize {
        let types: [Option<&Type>; 4] =
            [0usize, 1, 2, 3].map(|i| if i == present { Some(&own) } else { None });
        assert_eq!(
            listed_resource_requests(&types),
            vec![request(vec![Some(present as u64)], 1)]
        );
        let expected =
            Some([0usize, 1, 2, 3].map(|i| if i == present { Some(future(9)) } else { None }));
        assert_eq!(
            subscribe_component_async_array_optional(types, &mut replies(vec![Some(9)])),
            expected
        );
        assert_eq!(
            subscribe_component_async_iter_optional(&types, &mut replies(vec![Some(9)])),
            expected.map(Vec::from)
        );
    }
    assert_eq!(
        subscribe_component_async_array_optional([None; 2], &mut replies(vec![])),
        None
    );
    assert_eq!(
        subscribe_component_async_array_optional([], &mut replies(vec![])),
        None::<[Option<AsyncSubscription<u8>>; 0]>
    );
}

#[test]
fn replies_end_up_in_the_entry_of_their_type() {
    let pair = Type::Tuple(vec![Type::Own(1), Type::U8, Type::Borrow(2)]);
    let plain = Type::String;
    let list = Type::List(Box::new(Type::Own(3)));
    let types = [None, Some(&pair), Some(&plain), None, Some(&list)];
    let requests = listed_resource_requests(&types);
    assert_eq!(
        requests,
        vec![
            request(vec![Some(1), Some(0)], 1),
            request(vec![Some(1), Some(2)], 2),
            request(vec![Some(4), None], 3),
        ]
    );
    let mut replies: VecDeque<_> = requests
        .iter()
        .map(|request| match request.path.as_slice() {
            [Some(1), Some(2)] => Some(future(12)),
            [Some(4), None] => Some(future(40)),
            _ => None,
        })
        .collect();
    assert_eq!(
        subscribe_component_async_iter_optional(&types, &mut replies),
        Some(vec![
            None,
            Some(AsyncSubscription::Tuple(vec![None, None, Some(future(12))])),
            None,
            None,
            Some(AsyncSubscription::List(Box::new(future(40)))),
        ])
    );
    assert!(replies.is_empty());
}

#[test]
fn what_is_subscribed_for_a_type_fits_its_values() {
    let ty = Type::Tuple(vec![
        Type::Option(Box::new(Type::Own(1))),
        Type::Variant(vec![Case {
            name: "only".to_string(),
            ty: Some(Type::U8),
        }]),
    ]);
    let sub = subscribe_component_async(&ty, &mut replies(vec![Some(1)]));
    assert!(matches!(
        receive_value(&[0, 0, 5], 0, sub.as_ref(), &ty),
        Received::Done(_, 3)
    ));
    let list = Type::List(Box::new(Type::Own(1)));
    let sub = subscribe_component_async(&list, &mut replies(vec![Some(1)]));
    assert_eq!(
        receive_value(&[0], 0, sub.as_ref(), &list),
        Received::Failed(ReceiveError::DemultiplexOther)
    );
}
