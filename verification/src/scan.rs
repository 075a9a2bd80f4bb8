//! Outcomes of decoding a buffer that may still grow.
use vstd::prelude::*;

verus! {

/// Why a payload cannot be decoded.
#[derive(Debug, Clone, Copy, PartialEq, Eq, Structural)]
pub enum ReceiveError {
    /// An integer in base 128 is longer than 64 bits allow.
    Leb128Overflow,
    /// An integer does not fit the type that is decoded.
    IntegerOverflow,
    /// A number is not a Unicode scalar value.
    InvalidChar,
    /// The length of a string does not fit in `usize`.
    StringLength,
    /// The bytes of a string are not valid UTF-8.
    InvalidUtf8,
    /// The length of a list does not fit in `u32`.
    ListLength,
    /// A discriminant does not fit in `u32`.
    Discriminant,
    /// A variant has no case of the received discriminant.
    UnknownVariant,
    /// An enum has no case of the received discriminant.
    UnknownEnum,
    /// The tag of an option is neither zero nor one.
    InvalidOption,
    /// The tag of a result is neither zero nor one.
    InvalidResult,
    /// The subscription of a list is of another kind.
    ListSubscription,
    /// The subscription of a record is of another kind.
    RecordSubscription,
    /// The subscription of a tuple is of another kind.
    TupleSubscription,
    /// The subscription of a variant is of another kind.
    VariantSubscription,
    /// The subscription of an option is of another kind.
    OptionSubscription,
    /// The subscription of a result is of another kind.
    ResultSubscription,
    /// The elements of a list hold lists with subscriptions of their own.
    DemultiplexList,
    /// The elements of a list are streams.
    DemultiplexStream,
    /// The elements of a list have subscriptions that are neither lists nor streams.
    DemultiplexOther,
    /// The payload ended before the value was complete.
    UnexpectedEnd,
}

/// The outcome of reading a plain value from a buffer.
#[derive(Debug, PartialEq, Eq)]
pub enum Scanned<V> {
    /// The value, and the position of the first byte after it.
    Done(V, usize),
    /// The buffer ends before the value does.
    Incomplete,
    /// No further bytes can make the buffer valid.
    Failed(ReceiveError),
}

/// The mathematical content of a [`Scanned`].
pub enum Scan<V> {
    Done(V, int),
    Incomplete,
    Failed(ReceiveError),
}

impl<V> View for Scanned<V> {
    type V = Scan<V>;

    open spec fn view(&self) -> Scan<V> {
        match *self {
            Scanned::Done(v, next) => Scan::Done(v, next as int),
            Scanned::Incomplete => Scan::Incomplete,
            Scanned::Failed(e) => Scan::Failed(e),
        }
    }
}

} // verus!
