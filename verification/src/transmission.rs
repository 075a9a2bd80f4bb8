//! Guest resources that are waited for.
//!
//! Resources and pollables are held by the numbers that the host's table has them under.
use vstd::prelude::*;

use crate::polyfill::DynamicResourceType;

verus! {

/// A pollable of the guest, and the host's pollable for it.
#[derive(Debug, PartialEq, Eq)]
pub struct GuestLocalPollable {
    pub guest_resource: u32,
    pub pollable: u32,
}

/// A resource of the guest, and the subject at which it is called.
#[derive(Debug, PartialEq, Eq)]
pub struct GuestResource {
    pub resource: u32,
    pub subject: String,
    pub ty: DynamicResourceType,
}

/// What a guest hands out that is not there yet.
#[derive(Debug, PartialEq, Eq)]
pub enum GuestAsyncValue {
    Pollable(GuestLocalPollable),
    Resource(GuestResource),
}

/// A resource of the guest, the calls of which are waited for.
#[derive(Debug, PartialEq, Eq)]
pub struct GuestResourcePollable {
    pub pollable: u32,
    pub inner: u32,
    pub guest_resource: u32,
    pub subject: String,
    pub ty: DynamicResourceType,
}

/// Something of the guest that is waited for.
#[derive(Debug, PartialEq, Eq)]
pub enum GuestPollable {
    Local { pollable: GuestLocalPollable },
    Resource(GuestResourcePollable),
}

impl GuestPollable {
    /// The host's pollable.
    pub fn pollable(&self) -> (r: u32)
        ensures
            r == match self {
                GuestPollable::Local { pollable } => pollable.pollable,
                GuestPollable::Resource(resource) => resource.pollable,
            },
    {
        match self {
            GuestPollable::Local { pollable } => pollable.pollable,
            GuestPollable::Resource(resource) => resource.pollable,
        }
    }
}

/// Waiting for guest resources is not supported.
#[derive(Debug, Clone, Copy, PartialEq, Eq, Structural)]
pub struct Unsupported;

/// Waits for guest resources, which is refused.
pub fn handle_pollables(pollables: Vec<GuestPollable>) -> (r: Result<(), Unsupported>)
    ensures
        r == Err::<(), Unsupported>(Unsupported),
{
    Err(Unsupported)
}

/// The host's pollable is the one that is held, for a pollable of the guest as for a resource.
pub proof fn pollable_is_held(
    local: GuestLocalPollable,
    resource: GuestResourcePollable,
    r: u32,
    s: u32,
)
    requires
        call_ensures(GuestPollable::pollable, (&GuestPollable::Local { pollable: local },), r),
        call_ensures(GuestPollable::pollable, (&GuestPollable::Resource(resource),), s),
    ensures
        r == local.pollable,
        s == resource.pollable,
{
}

/// Whatever is to be waited for, that is refused.
pub proof fn waiting_is_refused(pollables: Vec<GuestPollable>, r: Result<(), Unsupported>)
    requires
        call_ensures(handle_pollables, (pollables,), r),
    ensures
        r is Err,
{
}

} // verus!
