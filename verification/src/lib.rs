//! Dynamically typed component values over wRPC, and the serving of components by them.
//!
//! A host that runs a WebAssembly component knows the types of the functions that the component
//! exports only once it has loaded it. This library decodes the parameters of such functions from
//! the payload of an invocation, as far as it has arrived, and works out what has to be subscribed
//! for beside the payload. It also decides where a component comes from, which of its imports are
//! polyfilled, and which of its functions are served.
//!
//! - [`value`]: types and values;
//! - [`scan`], [`leb128`], [`primitive`]: numbers, characters and strings in a payload;
//! - [`receive`]: values of any type in a payload;
//! - [`subscription`], [`subscribe`]: what is subscribed for, for values of a type;
//! - [`tuple`](mod@tuple): a value, or several, from a payload that arrives in chunks;
//! - [`transmission`]: guest resources that are waited for;
//! - [`polyfill`], [`invocation`], [`workload`]: running a component.
//!
//! What holds of these together is proved in [`stability`] (more of a payload changes nothing that
//! was decoded, and nothing before a position matters there), [`typing`] and [`encoding`] (a
//! payload is decoded to values of its type, and to all of them), [`format`](mod@format) (what the
//! bytes of each type come to), [`placement`] (what is subscribed for ends up where it belongs),
//! [`agreement`] (what is subscribed for a type is what decoding that type takes) and [`walk`]
//! (what a whole walk over the imports defines, and which resource types it collects).

pub mod agreement;
pub mod encoding;
pub mod format;
pub mod invocation;
pub mod leb128;
pub mod placement;
pub mod polyfill;
pub mod primitive;
pub mod receive;
pub mod scan;
pub mod stability;
pub mod subscribe;
pub mod subscription;
pub mod transmission;
pub mod tuple;
pub mod typing;
pub mod value;
pub mod walk;
pub mod workload;
