use wrpc::polyfill::DynamicResourceType;
use wrpc::transmission::{
    handle_pollables, GuestLocalPollable, GuestPollable, GuestResourcePollable, Unsupported,
};

fn local() -> GuestPollable {
    GuestPollable::Local {
        pollable: GuestLocalPollable {
            guest_resource: 1,
            pollable: 2,
        },
    }
}

#[test]
fn pollables_are_told_apart() {
    let resource = GuestPollable::Resource(GuestResourcePollable {
        pollable: 3,
        inner: 4,
        guest_resource: 5,
        subject: "s".to_string(),
        ty: DynamicResourceType {
            instance: "i".to_string(),
            name: "n".to_string(),
        },
    });
    assert_eq!(local().pollable(), 2);
    assert_eq!(resource.pollable(), 3);
}

#[test]
fn waiting_is_not_supported() {
    assert_eq!(handle_pollables(vec![]), Err(Unsupported));
    assert_eq!(handle_pollables(vec![local()]), Err(Unsupported));
}
