//! Payloads as the transport writes and reads them.
use bytes::{Bytes, BytesMut};
use futures::executor::block_on;
use futures::stream;
use wrpc::receive::{receive_value, Received};
use wrpc::subscription::AsyncSubscription;
use wrpc::value::{Type, Val};
use wrpc_transport::{Encode, Receive};

fn written(v: impl Encode) -> Vec<u8> {
    let mut payload = BytesMut::new();
    let pending = block_on(v.encode(&mut payload)).expect("failed to encode");
    assert!(pending.is_none());
    payload.to_vec()
}

fn read<T: Receive + Send>(payload: &[u8]) -> Option<T> {
    let mut rx = stream::empty::<anyhow::Result<Bytes>>();
    block_on(T::receive_sync(Bytes::copy_from_slice(payload), &mut rx))
        .ok()
        .map(|(v, _)| v)
}

fn decoded(payload: &[u8], ty: &Type) -> Option<Val> {
    match receive_value(payload, 0, None::<&AsyncSubscription<()>>, ty) {
        Received::Done(v, _) => Some(v),
        _ => None,
    }
}

#[test]
fn what_the_transport_writes_is_decoded() {
    let payload = written((
        true,
        -3i16,
        Some("wasm".to_string()),
        vec![1u32, 300, 70000],
    ));
    let ty = Type::Tuple(vec![
        Type::Bool,
        Type::S16,
        Type::Option(Box::new(Type::String)),
        Type::List(Box::new(Type::U32)),
    ]);
    assert_eq!(
        receive_value(&payload, 0, None::<&AsyncSubscription<()>>, &ty),
        Received::Done(
            Val::Tuple(vec![
                Val::Bool(true),
                Val::S16(-3),
                Val::Option(Some(Box::new(Val::String("wasm".to_string())))),
                Val::List(vec![Val::U32(1), Val::U32(300), Val::U32(70000)]),
            ]),
            payload.len()
        )
    );
    let payload = written(Ok::<char, u64>('ß'));
    let ty = Type::Result {
        ok: Some(Box::new(Type::Char)),
        err: Some(Box::new(Type::U64)),
    };
    assert_eq!(
        decoded(&payload, &ty),
        Some(Val::Result(Ok(Some(Box::new(Val::Char('ß'))))))
    );
    let payload = written(-0.5f64);
    assert_eq!(
        decoded(&payload, &Type::Float64),
        Some(Val::Float64((-0.5f64).to_bits()))
    );
}

#[test]
fn integers_agree_with_the_transport() {
    let payloads: [&[u8]; 14] = [
        &[],
        &[0],
        &[0x3f],
        &[0x40],
        &[0x7f],
        &[0x80],
        &[0x80, 0],
        &[0xff, 0xff, 3],
        &[0x80, 0x80, 4],
        &[0xff, 0xff, 0xff, 0xff, 0x0f],
        &[0x80, 0x80, 0x80, 0x80, 0x78],
        &[0xff, 0xff, 0xff, 0xff, 0xff, 0xff, 0xff, 0xff, 0xff, 1],
        &[0xff, 0xff, 0xff, 0xff, 0xff, 0xff, 0xff, 0xff, 0xff, 0x7f],
        &[0x80, 0x80, 0x80, 0x80, 0x80, 0x80, 0x80, 0x80, 0x80, 0x80, 0],
    ];
    for payload in payloads {
        assert_eq!(decoded(payload, &Type::U16), read(payload).map(Val::U16));
        assert_eq!(decoded(payload, &Type::U32), read(payload).map(Val::U32));
        assert_eq!(decoded(payload, &Type::U64), read(payload).map(Val::U64));
        assert_eq!(decoded(payload, &Type::S16), read(payload).map(Val::S16));
        assert_eq!(decoded(payload, &Type::S32), read(payload).map(Val::S32));
        assert_eq!(decoded(payload, &Type::S64), read(payload).map(Val::S64));
        assert_eq!(decoded(payload, &Type::Char), read(payload).map(Val::Char));
        assert_eq!(decoded(payload, &Type::U8), read(payload).map(Val::U8));
        assert_eq!(decoded(payload, &Type::S8), read(payload).map(Val::S8));
        assert_eq!(decoded(payload, &Type::Bool), read(payload).map(Val::Bool));
    }
}

#[test]
fn floats_and_strings_agree_with_the_transport() {
    let payloads: [&[u8]; 6] = [
        &[0, 0, 0xc0],
        &[0, 0, 0xc0, 0x3f],
        &[0, 0, 0xc0, 0x3f, 1, 2, 3],
        &[0, 0, 0xc0, 0x3f, 1, 2, 3, 4],
        &[3, 0xe2, 0x82, 0xac, 0, 0, 0, 0, 0],
        &[3, 0xe2, 0x82, 0, 0, 0, 0, 0, 0],
    ];
    for payload in payloads {
        assert_eq!(
            decoded(payload, &Type::Float32),
            read::<f32>(payload).map(|v| Val::Float32(v.to_bits()))
        );
        assert_eq!(
            decoded(payload, &Type::Float64),
            read::<f64>(payload).map(|v| Val::Float64(v.to_bits()))
        );
        assert_eq!(decoded(payload, &Type::String), read(payload).map(Val::String));
    }
}
