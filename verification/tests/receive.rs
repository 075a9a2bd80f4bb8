use wrpc::receive::{receive_value, Received};
use wrpc::scan::ReceiveError;
use wrpc::subscription::AsyncSubscription;
use wrpc::value::{Case, Field, Type, Val};

fn decode(payload: &[u8], ty: &Type) -> Received<'static, Val, ()> {
    receive_value(payload, 0, None::<&AsyncSubscription<()>>, ty)
}

fn decode_with<'a>(
    payload: &[u8],
    sub: &'a AsyncSubscription<u8>,
    ty: &Type,
) -> Received<'a, Val, u8> {
    receive_value(payload, 0, Some(sub), ty)
}

fn done(v: Val, next: usize) -> Received<'static, Val, ()> {
    Received::Done(v, next)
}

fn failed(e: ReceiveError) -> Received<'static, Val, ()> {
    Received::Failed(e)
}

fn future(subscriber: u8) -> AsyncSubscription<u8> {
    AsyncSubscription::Future {
        subscriber,
        nested: None,
    }
}

fn stream(subscriber: u8) -> AsyncSubscription<u8> {
    AsyncSubscription::Stream {
        subscriber,
        nested: None,
    }
}

#[test]
fn booleans_are_true_for_one_only() {
    assert_eq!(decode(&[1], &Type::Bool), done(Val::Bool(true), 1));
    assert_eq!(decode(&[0], &Type::Bool), done(Val::Bool(false), 1));
    assert_eq!(decode(&[2], &Type::Bool), done(Val::Bool(false), 1));
    assert_eq!(decode(&[], &Type::Bool), Received::Incomplete);
}

#[test]
fn bytes_are_read_as_they_are() {
    assert_eq!(decode(&[0xff, 3], &Type::U8), done(Val::U8(255), 1));
    assert_eq!(decode(&[0xff], &Type::S8), done(Val::S8(-1), 1));
    assert_eq!(decode(&[0x80], &Type::S8), done(Val::S8(-128), 1));
    assert_eq!(decode(&[0x7f], &Type::S8), done(Val::S8(127), 1));
    assert_eq!(decode(&[], &Type::U8), Received::Incomplete);
    assert_eq!(decode(&[], &Type::S8), Received::Incomplete);
}

#[test]
fn unsigned_integers_have_seven_bits_to_a_byte() {
    assert_eq!(decode(&[0xe5, 0x8e, 0x26], &Type::U32), done(Val::U32(624485), 3));
    assert_eq!(decode(&[0xff, 0xff, 0x03], &Type::U16), done(Val::U16(u16::MAX), 3));
    assert_eq!(
        decode(&[0xff, 0xff, 0xff, 0xff, 0x0f], &Type::U32),
        done(Val::U32(u32::MAX), 5)
    );
    assert_eq!(
        decode(&[0xff, 0xff, 0xff, 0xff, 0xff, 0xff, 0xff, 0xff, 0xff, 1], &Type::U64),
        done(Val::U64(u64::MAX), 10)
    );
    assert_eq!(decode(&[0x80, 0x80, 0], &Type::U64), done(Val::U64(0), 3));
    assert_eq!(decode(&[0x80, 0x80], &Type::U64), Received::Incomplete);
}

#[test]
fn signed_integers_extend_their_sign() {
    assert_eq!(decode(&[0xc0, 0xbb, 0x78], &Type::S32), done(Val::S32(-123456), 3));
    assert_eq!(decode(&[0x7f], &Type::S16), done(Val::S16(-1), 1));
    assert_eq!(decode(&[0x3f], &Type::S16), done(Val::S16(63), 1));
    assert_eq!(decode(&[0x40], &Type::S16), done(Val::S16(-64), 1));
    assert_eq!(
        decode(&[0x80, 0x80, 0x80, 0x80, 0x80, 0x80, 0x80, 0x80, 0x80, 0x7f], &Type::S64),
        done(Val::S64(i64::MIN), 10)
    );
    assert_eq!(
        decode(&[0xff, 0xff, 0xff, 0xff, 0xff, 0xff, 0xff, 0xff, 0xff, 0], &Type::S64),
        done(Val::S64(i64::MAX), 10)
    );
}

#[test]
fn integers_are_held_to_their_width() {
    let long = [0xff, 0xff, 0xff, 0xff, 0xff, 0xff, 0xff, 0xff, 0xff, 2];
    let longer = [0x80, 0x80, 0x80, 0x80, 0x80, 0x80, 0x80, 0x80, 0x80, 0x80, 0];
    assert_eq!(decode(&long, &Type::U64), failed(ReceiveError::Leb128Overflow));
    assert_eq!(decode(&longer, &Type::U64), failed(ReceiveError::Leb128Overflow));
    assert_eq!(decode(&longer, &Type::S64), failed(ReceiveError::Leb128Overflow));
    assert_eq!(decode(&longer[..10], &Type::U64), Received::Incomplete);
    assert_eq!(
        decode(&[0x80, 0x80, 0x04], &Type::U16),
        failed(ReceiveError::IntegerOverflow)
    );
    assert_eq!(
        decode(&[0x80, 0x80, 0x80, 0x80, 0x10], &Type::U32),
        failed(ReceiveError::IntegerOverflow)
    );
    assert_eq!(
        decode(&[0x80, 0x80, 0x02], &Type::S16),
        failed(ReceiveError::IntegerOverflow)
    );
    assert_eq!(
        decode(&[0x80, 0x80, 0x80, 0x80, 0x08], &Type::S32),
        failed(ReceiveError::IntegerOverflow)
    );
}

#[test]
fn floats_are_held_by_their_bits() {
    let mut single = 1.5f32.to_le_bytes().to_vec();
    assert_eq!(decode(&single, &Type::Float32), Received::Incomplete);
    single.extend_from_slice(&[9, 9, 9]);
    assert_eq!(decode(&single, &Type::Float32), Received::Incomplete);
    single.push(9);
    assert_eq!(
        decode(&single, &Type::Float32),
        done(Val::Float32(1.5f32.to_bits()), 4)
    );
    let double = (-2.25f64).to_le_bytes();
    assert_eq!(
        decode(&double, &Type::Float64),
        done(Val::Float64((-2.25f64).to_bits()), 8)
    );
    assert_eq!(decode(&double[..7], &Type::Float64), Received::Incomplete);
}

#[test]
fn characters_are_scalar_values() {
    assert_eq!(decode(&[0x41], &Type::Char), done(Val::Char('A'), 1));
    assert_eq!(
        decode(&[0x80, 0xec, 0x07], &Type::Char),
        done(Val::Char('\u{1F600}'), 3)
    );
    assert_eq!(
        decode(&[0x80, 0xb0, 0x03], &Type::Char),
        failed(ReceiveError::InvalidChar)
    );
    assert_eq!(
        decode(&[0x80, 0x80, 0x80, 0x80, 0x10], &Type::Char),
        failed(ReceiveError::IntegerOverflow)
    );
}

#[test]
fn strings_are_counted_in_bytes() {
    assert_eq!(
        decode(&[5, b'h', b'e', b'l', b'l', b'o', b'!'], &Type::String),
        done(Val::String("hello".to_string()), 6)
    );
    assert_eq!(
        decode(&[2, 0xc3, 0xa9], &Type::String),
        done(Val::String("é".to_string()), 3)
    );
    assert_eq!(decode(&[0], &Type::String), done(Val::String(String::new()), 1));
    assert_eq!(decode(&[3, b'h', b'e'], &Type::String), Received::Incomplete);
    assert_eq!(decode(&[1, 0xc3], &Type::String), failed(ReceiveError::InvalidUtf8));
}

#[test]
fn lists_have_a_count() {
    let ty = Type::List(Box::new(Type::U8));
    assert_eq!(
        decode(&[3, 7, 8, 9, 10], &ty),
        done(Val::List(vec![Val::U8(7), Val::U8(8), Val::U8(9)]), 4)
    );
    assert_eq!(decode(&[0], &ty), done(Val::List(vec![]), 1));
    assert_eq!(decode(&[3, 7, 8], &ty), Received::Incomplete);
    assert_eq!(
        decode(&[0x80, 0x80, 0x80, 0x80, 0x10], &ty),
        failed(ReceiveError::ListLength)
    );
    let nothing = Type::List(Box::new(Type::Tuple(vec![])));
    assert_eq!(
        decode(&[2], &nothing),
        done(Val::List(vec![Val::Tuple(vec![]), Val::Tuple(vec![])]), 1)
    );
}

#[test]
fn records_and_tuples_are_read_in_order() {
    let record = Type::Record(vec![
        Field {
            name: "a".to_string(),
            ty: Type::U8,
        },
        Field {
            name: "b".to_string(),
            ty: Type::Bool,
        },
    ]);
    assert_eq!(
        decode(&[4, 1], &record),
        done(
            Val::Record(vec![
                ("a".to_string(), Val::U8(4)),
                ("b".to_string(), Val::Bool(true)),
            ]),
            2
        )
    );
    let tuple = Type::Tuple(vec![Type::U16, Type::Char]);
    assert_eq!(
        decode(&[0x80, 1, 0x42], &tuple),
        done(Val::Tuple(vec![Val::U16(128), Val::Char('B')]), 3)
    );
    assert_eq!(decode(&[0x80, 1], &tuple), Received::Incomplete);
}

fn shape() -> Type {
    Type::Variant(vec![
        Case {
            name: "point".to_string(),
            ty: None,
        },
        Case {
            name: "circle".to_string(),
            ty: Some(Type::U8),
        },
    ])
}

#[test]
fn variants_are_read_by_their_index() {
    assert_eq!(
        decode(&[0], &shape()),
        done(
            Val::Variant {
                name: "point".to_string(),
                value: None,
            },
            1
        )
    );
    assert_eq!(
        decode(&[1, 12], &shape()),
        done(
            Val::Variant {
                name: "circle".to_string(),
                value: Some(Box::new(Val::U8(12))),
            },
            2
        )
    );
    assert_eq!(decode(&[2], &shape()), failed(ReceiveError::UnknownVariant));
    assert_eq!(
        decode(&[0x80, 0x80, 0x80, 0x80, 0x10], &shape()),
        failed(ReceiveError::Discriminant)
    );
    assert_eq!(decode(&[1], &shape()), Received::Incomplete);
}

#[test]
fn enums_are_read_by_their_index() {
    let ty = Type::Enum(vec!["red".to_string(), "green".to_string()]);
    assert_eq!(decode(&[1], &ty), done(Val::Enum("green".to_string()), 1));
    assert_eq!(decode(&[2], &ty), failed(ReceiveError::UnknownEnum));
    assert_eq!(
        decode(&[0x80, 0x80, 0x80, 0x80, 0x10], &ty),
        failed(ReceiveError::Discriminant)
    );
}

#[test]
fn options_have_a_tag() {
    let ty = Type::Option(Box::new(Type::U8));
    assert_eq!(decode(&[0, 5], &ty), done(Val::Option(None), 1));
    assert_eq!(
        decode(&[1, 5], &ty),
        done(Val::Option(Some(Box::new(Val::U8(5)))), 2)
    );
    assert_eq!(decode(&[2, 5], &ty), failed(ReceiveError::InvalidOption));
    assert_eq!(decode(&[1], &ty), Received::Incomplete);
}

#[test]
fn results_have_a_tag() {
    let ty = Type::Result {
        ok: Some(Box::new(Type::U8)),
        err: None,
    };
    assert_eq!(
        decode(&[0, 5], &ty),
        done(Val::Result(Ok(Some(Box::new(Val::U8(5))))), 2)
    );
    assert_eq!(decode(&[1, 5], &ty), done(Val::Result(Err(None)), 1));
    assert_eq!(decode(&[2], &ty), failed(ReceiveError::InvalidResult));
    let swapped = Type::Result {
        ok: None,
        err: Some(Box::new(Type::Bool)),
    };
    assert_eq!(decode(&[0], &swapped), done(Val::Result(Ok(None)), 1));
    assert_eq!(
        decode(&[1, 1], &swapped),
        done(Val::Result(Err(Some(Box::new(Val::Bool(true))))), 2)
    );
}

#[test]
fn flags_are_bits() {
    let ty = Type::Flags(vec!["r".to_string(), "w".to_string(), "x".to_string()]);
    assert_eq!(
        decode(&[5], &ty),
        done(Val::Flags(vec!["r".to_string(), "x".to_string()]), 1)
    );
    assert_eq!(decode(&[0x78], &ty), done(Val::Flags(vec![]), 1));
    let many: Vec<String> = (0..70).map(|i| format!("f{i}")).collect();
    let all = [0xff, 0xff, 0xff, 0xff, 0xff, 0xff, 0xff, 0xff, 0xff, 1];
    assert_eq!(
        decode(&all, &Type::Flags(many.clone())),
        done(Val::Flags(many[..64].to_vec()), 10)
    );
}

#[test]
fn resources_are_left_to_the_caller() {
    let ty = Type::Tuple(vec![Type::U8, Type::Own(17)]);
    assert_eq!(decode(&[1], &ty), Received::Resource(17, 1, None));
    let sub = AsyncSubscription::Tuple(vec![None, Some(future(3))]);
    match decode_with(&[1], &sub, &ty) {
        Received::Resource(resource, at, nested) => {
            assert_eq!((resource, at), (17, 1));
            assert_eq!(nested, Some(&future(3)));
        }
        r => panic!("unexpected outcome {r:?}"),
    }
    assert_eq!(decode(&[], &Type::Borrow(2)), Received::Resource(2, 0, None));
}

#[test]
fn subscriptions_of_another_kind_are_refused() {
    let record = Type::Record(vec![]);
    let tuple = Type::Tuple(vec![]);
    let option = Type::Option(Box::new(Type::U8));
    let result = Type::Result {
        ok: None,
        err: None,
    };
    let list = Type::List(Box::new(Type::U8));
    let sub = future(0);
    assert_eq!(
        decode_with(&[], &sub, &record),
        Received::Failed(ReceiveError::RecordSubscription)
    );
    assert_eq!(
        decode_with(&[], &sub, &tuple),
        Received::Failed(ReceiveError::TupleSubscription)
    );
    assert_eq!(
        decode_with(&[1, 1], &sub, &option),
        Received::Failed(ReceiveError::OptionSubscription)
    );
    assert_eq!(
        decode_with(&[0], &sub, &option),
        Received::Done(Val::Option(None), 1)
    );
    assert_eq!(
        decode_with(&[], &sub, &result),
        Received::Failed(ReceiveError::ResultSubscription)
    );
    assert_eq!(
        decode_with(&[0], &sub, &shape()),
        Received::Failed(ReceiveError::VariantSubscription)
    );
    assert_eq!(
        decode_with(&[9], &sub, &shape()),
        Received::Failed(ReceiveError::UnknownVariant)
    );
    assert_eq!(
        decode_with(&[], &sub, &list),
        Received::Failed(ReceiveError::ListSubscription)
    );
    assert_eq!(
        decode_with(&[1], &sub, &Type::Bool),
        Received::Done(Val::Bool(true), 1)
    );
}

#[test]
fn lists_cannot_share_a_subscription() {
    let list = Type::List(Box::new(Type::Own(0)));
    let cases = [
        (
            AsyncSubscription::List(Box::new(AsyncSubscription::List(Box::new(future(1))))),
            ReceiveError::DemultiplexList,
        ),
        (
            AsyncSubscription::List(Box::new(stream(1))),
            ReceiveError::DemultiplexStream,
        ),
        (
            AsyncSubscription::List(Box::new(future(1))),
            ReceiveError::DemultiplexOther,
        ),
    ];
    for (sub, e) in &cases {
        assert_eq!(decode_with(&[0], sub, &list), Received::Failed(*e));
    }
}

#[test]
fn subscriptions_do_not_change_the_value() {
    let ty = Type::Tuple(vec![
        Type::Option(Box::new(Type::Own(1))),
        Type::Result {
            ok: Some(Box::new(Type::U8)),
            err: Some(Box::new(Type::Own(2))),
        },
        shape(),
    ]);
    let sub = AsyncSubscription::Tuple(vec![
        Some(AsyncSubscription::Option(Box::new(future(1)))),
        Some(AsyncSubscription::Result {
            ok: None,
            err: Some(Box::new(future(2))),
        }),
        Some(AsyncSubscription::Variant(vec![None, Some(future(3))])),
    ]);
    let payload = [0, 0, 9, 1, 4];
    let with = decode_with(&payload, &sub, &ty);
    assert!(matches!(with, Received::Done(_, 5)));
    assert_eq!(
        with,
        receive_value(&payload, 0, None::<&AsyncSubscription<u8>>, &ty)
    );
}

#[test]
fn more_bytes_change_nothing() {
    let ty = Type::Tuple(vec![Type::String, Type::Option(Box::new(Type::U32)), shape()]);
    let payload = [2, b'o', b'k', 1, 0x80, 1, 1, 7];
    let whole = decode(&payload, &ty);
    assert_eq!(
        whole,
        done(
            Val::Tuple(vec![
                Val::String("ok".to_string()),
                Val::Option(Some(Box::new(Val::U32(128)))),
                Val::Variant {
                    name: "circle".to_string(),
                    value: Some(Box::new(Val::U8(7))),
                },
            ]),
            8
        )
    );
    for n in 0..payload.len() {
        assert_eq!(decode(&payload[..n], &ty), Received::Incomplete);
    }
    let mut longer = payload.to_vec();
    longer.extend_from_slice(&[0xff; 16]);
    assert_eq!(decode(&longer, &ty), whole);
}

#[test]
fn values_are_read_from_a_position() {
    let payload = [9, 9, 9, 1, 5];
    let ty = Type::Option(Box::new(Type::U8));
    assert_eq!(
        receive_value(&payload, 3, None::<&AsyncSubscription<()>>, &ty),
        done(Val::Option(Some(Box::new(Val::U8(5)))), 5)
    );
    assert_eq!(
        receive_value(&payload, 5, None::<&AsyncSubscription<()>>, &ty),
        Received::Incomplete
    );
}

#[test]
fn nothing_before_the_position_matters() {
    let types = [
        Type::Bool,
        Type::U64,
        Type::S32,
        Type::Char,
        Type::String,
        Type::Float32,
        Type::List(Box::new(Type::U16)),
        Type::Option(Box::new(Type::String)),
        Type::Result {
            ok: Some(Box::new(Type::U8)),
            err: None,
        },
        Type::Tuple(vec![Type::U8, Type::Own(7)]),
    ];
    let payload = [0xff, 1, 2, 0x80, 3, 0x68, 0x69, 0xff, 0, 4, 1, 2, 3, 0x80];
    for ty in &types {
        for at in 0..=payload.len() {
            let moved = match decode(&payload[at..], ty) {
                Received::Done(v, next) => Received::Done(v, next + at),
                Received::Resource(ty, next, sub) => Received::Resource(ty, next + at, sub),
                r => r,
            };
            assert_eq!(
                receive_value(&payload, at, None::<&AsyncSubscription<()>>, ty),
                moved
            );
        }
    }
}
