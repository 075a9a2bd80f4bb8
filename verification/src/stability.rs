//! What decoding keeps when more of a payload arrives, and when what was read of it is left behind.
//!
//! A payload arrives in chunks. A decoder that has read enough must not change its mind when the
//! next chunk comes, and must not read beyond what it has. Nor must it look back: what comes of a
//! position is a matter of the bytes from there on.
use vstd::prelude::*;

use crate::leb128::{
    integer_end, lemma_integer_end, signed_at, signed_value, unsigned_at, unsigned_value,
};
use crate::primitive::{discriminant_at, list_header_at, little_endian, string_at};
use crate::receive::{elements, plain_at, receive, sub_at, unboxed, Outcome};
use crate::scan::Scan;
use crate::subscription::SubModel;
use crate::value::Type;

verus! {

/// Whether what was scanned in a buffer that starts at `at` and has `len` bytes lies inside it.
pub open spec fn scan_within<V>(s: Scan<V>, at: int, len: nat) -> bool {
    s matches Scan::Done(_, next) ==> at <= next <= len
}

/// Whether what was decoded in a buffer that starts at `at` and has `len` bytes lies inside it.
pub open spec fn within<V, T>(o: Outcome<V, T>, at: int, len: nat) -> bool {
    match o {
        Outcome::Done(_, next) => at <= next <= len,
        Outcome::Resource(_, next, _) => at <= next <= len,
        _ => true,
    }
}

/// Every buffer is a prefix of itself.
pub proof fn lemma_prefix_of_itself(b: Seq<u8>)
    ensures
        b.is_prefix_of(b),
{
    assert(b =~= b.subrange(0, b.len() as int));
}

proof fn lemma_integer_end_extends(b: Seq<u8>, c: Seq<u8>, at: int)
    requires
        0 <= at,
        b.is_prefix_of(c),
    ensures
        integer_end(b, at) is Some ==> integer_end(c, at) == integer_end(b, at),
    decreases b.len() - at,
{
    if at < b.len() {
        assert(b[at] == c[at]);
        lemma_integer_end_extends(b, c, at + 1);
    }
}

proof fn lemma_values_extend(b: Seq<u8>, c: Seq<u8>, at: int, end: int)
    requires
        0 <= at < end <= b.len(),
        b.is_prefix_of(c),
    ensures
        unsigned_value(c, at, end) == unsigned_value(b, at, end),
        signed_value(c, at, end) == signed_value(b, at, end),
    decreases end - at,
{
    assert(b[at] == c[at]);
    if at + 1 < end {
        lemma_values_extend(b, c, at + 1, end);
    } else {
        reveal_with_fuel(unsigned_value, 2);
    }
}

/// An integer that has been read stays, and so does a failure.
pub proof fn lemma_integers_extend(b: Seq<u8>, c: Seq<u8>, at: int)
    requires
        0 <= at,
        b.is_prefix_of(c),
    ensures
        unsigned_at(b, at) is Incomplete || unsigned_at(c, at) == unsigned_at(b, at),
        signed_at(b, at) is Incomplete || signed_at(c, at) == signed_at(b, at),
        scan_within(unsigned_at(b, at), at, b.len()),
        scan_within(signed_at(b, at), at, b.len()),
{
    lemma_integer_end_extends(b, c, at);
    lemma_integer_end(b, at);
    if let Some(end) = integer_end(b, at) {
        lemma_values_extend(b, c, at, end);
    }
}

proof fn lemma_little_endian_extends(b: Seq<u8>, c: Seq<u8>, at: int, n: nat)
    requires
        0 <= at,
        at + n <= b.len(),
        b.is_prefix_of(c),
    ensures
        little_endian(c, at, n) == little_endian(b, at, n),
    decreases n,
{
    if n > 0 {
        assert(b[at] == c[at]);
        lemma_little_endian_extends(b, c, at + 1, (n - 1) as nat);
    }
}

proof fn lemma_string_extends(b: Seq<u8>, c: Seq<u8>, at: int)
    requires
        0 <= at,
        b.is_prefix_of(c),
    ensures
        string_at(b, at) is Incomplete || string_at(c, at) == string_at(b, at),
        scan_within(string_at(b, at), at, b.len()),
{
    lemma_integers_extend(b, c, at);
    if let Scan::Done(len, start) = unsigned_at(b, at) {
        if start + len <= b.len() {
            assert(b.subrange(start, start + len) =~= c.subrange(start, start + len));
        }
    }
}

/// A plain value that has been decoded stays, and so does a failure.
proof fn lemma_plain_extends(ty: Type, b: Seq<u8>, c: Seq<u8>, at: int)
    requires
        0 <= at,
        b.is_prefix_of(c),
    ensures
        plain_at(ty, b, at) is Incomplete || plain_at(ty, c, at) == plain_at(ty, b, at),
        scan_within(plain_at(ty, b, at), at, b.len()),
{
    lemma_integers_extend(b, c, at);
    lemma_string_extends(b, c, at);
    if at < b.len() {
        assert(b[at] == c[at]);
    }
    if at + 8 <= b.len() {
        lemma_little_endian_extends(b, c, at, 4);
        lemma_little_endian_extends(b, c, at, 8);
    }
}

/// Elements that have been decoded stay, and so does a failure.
pub proof fn lemma_elements_extend<T>(
    parent: Type,
    subs: Option<Seq<Option<SubModel<T>>>>,
    b: Seq<u8>,
    c: Seq<u8>,
    at: int,
    n: nat,
)
    requires
        0 <= at <= b.len(),
        b.is_prefix_of(c),
    ensures
        elements(parent, subs, b, at, n) is Incomplete || elements(parent, subs, c, at, n)
            == elements(parent, subs, b, at, n),
        within(elements(parent, subs, b, at, n), at, b.len()),
    decreases parent, 0nat, n,
{
    if n > 0 {
        lemma_elements_extend(parent, subs, b, c, at, (n - 1) as nat);
        if let Outcome::Done(vs, next) = elements(parent, subs, b, at, (n - 1) as nat) {
            let sub = sub_at(subs, n - 1);
            match parent {
                Type::List(ty) => receive_extends(*ty, sub, b, c, next),
                Type::Record(fields) => if n <= fields@.len() {
                    receive_extends(fields@[n - 1].ty, sub, b, c, next);
                },
                Type::Tuple(types) => if n <= types@.len() {
                    receive_extends(types@[n - 1], sub, b, c, next);
                },
                _ => {},
            }
        }
    }
}

/// What has been decoded from a payload, and why it cannot be, is the same however much of the
/// payload is still to come; and nothing is read beyond what is there.
pub proof fn receive_extends<T>(
    ty: Type,
    sub: Option<SubModel<T>>,
    b: Seq<u8>,
    c: Seq<u8>,
    at: int,
)
    requires
        0 <= at <= b.len(),
        b.is_prefix_of(c),
    ensures
        receive(ty, sub, b, at) is Incomplete || receive(ty, sub, c, at) == receive(
            ty,
            sub,
            b,
            at,
        ),
        within(receive(ty, sub, b, at), at, b.len()),
    decreases ty, 1nat, 0nat,
{
    lemma_integers_extend(b, c, at);
    if at < b.len() {
        assert(b[at] == c[at]);
    }
    match ty {
        Type::List(_) => {
            if let Scan::Done(n, next) = list_header_at(b, at) {
                lemma_elements_extend::<T>(ty, None, b, c, next, n as nat);
            }
        },
        Type::Record(fields) => {
            lemma_elements_extend::<T>(ty, None, b, c, at, fields@.len());
            if let Some(SubModel::Record(subs)) = sub {
                lemma_elements_extend(ty, Some(subs), b, c, at, fields@.len());
            }
        },
        Type::Tuple(types) => {
            lemma_elements_extend::<T>(ty, None, b, c, at, types@.len());
            if let Some(SubModel::Tuple(subs)) = sub {
                lemma_elements_extend(ty, Some(subs), b, c, at, types@.len());
            }
        },
        Type::Variant(cases) => {
            if let Scan::Done(i, next) = discriminant_at(b, at) {
                if i < cases@.len() {
                    if let Some(ty) = cases@[i as int].ty {
                        let subs = match sub {
                            Some(SubModel::Variant(subs)) => Some(subs),
                            _ => None,
                        };
                        receive_extends(ty, sub_at(subs, i as int), b, c, next);
                    }
                }
            }
        },
        Type::Option(some) => {
            if at < b.len() {
                receive_extends::<T>(*some, None, b, c, at + 1);
                if let Some(SubModel::Option(sub)) = sub {
                    receive_extends(*some, Some(*sub), b, c, at + 1);
                }
            }
        },
        Type::Result { ok, err } => {
            let (sub_ok, sub_err) = match sub {
                Some(SubModel::Result { ok, err }) => (unboxed(ok), unboxed(err)),
                _ => (None, None),
            };
            if at < b.len() {
                if let Some(ty) = ok {
                    receive_extends(*ty, sub_ok, b, c, at + 1);
                }
                if let Some(ty) = err {
                    receive_extends(*ty, sub_err, b, c, at + 1);
                }
            }
        },
        _ => lemma_plain_extends(ty, b, c, at),
    }
}

/// What was scanned, `n` bytes further on.
pub open spec fn scan_moved<V>(s: Scan<V>, n: int) -> Scan<V> {
    match s {
        Scan::Done(v, next) => Scan::Done(v, next + n),
        Scan::Incomplete => Scan::Incomplete,
        Scan::Failed(e) => Scan::Failed(e),
    }
}

/// What was decoded, `n` bytes further on.
pub open spec fn moved<V, T>(o: Outcome<V, T>, n: int) -> Outcome<V, T> {
    match o {
        Outcome::Done(v, next) => Outcome::Done(v, next + n),
        Outcome::Incomplete => Outcome::Incomplete,
        Outcome::Resource(ty, at, sub) => Outcome::Resource(ty, at + n, sub),
        Outcome::Failed(e) => Outcome::Failed(e),
    }
}

proof fn lemma_integer_end_moves(b: Seq<u8>, n: int, at: int)
    requires
        0 <= n <= b.len(),
        0 <= at,
    ensures
        integer_end(b, n + at) == match integer_end(b.skip(n), at) {
            Some(end) => Some(end + n),
            None => None,
        },
    decreases b.len() - n - at,
{
    if n + at < b.len() {
        assert(b.skip(n)[at] == b[n + at]);
        lemma_integer_end_moves(b, n, at + 1);
    }
}

proof fn lemma_values_move(b: Seq<u8>, n: int, at: int, end: int)
    requires
        0 <= n,
        0 <= at < end,
        n + end <= b.len(),
    ensures
        unsigned_value(b, n + at, n + end) == unsigned_value(b.skip(n), at, end),
        signed_value(b, n + at, n + end) == signed_value(b.skip(n), at, end),
    decreases end - at,
{
    assert(b.skip(n)[at] == b[n + at]);
    if at + 1 < end {
        lemma_values_move(b, n, at + 1, end);
    } else {
        reveal_with_fuel(unsigned_value, 2);
    }
}

/// An integer is decided by the bytes from its position on.
proof fn lemma_integers_move(b: Seq<u8>, n: int, at: int)
    requires
        0 <= n <= b.len(),
        0 <= at,
    ensures
        unsigned_at(b, n + at) == scan_moved(unsigned_at(b.skip(n), at), n),
        signed_at(b, n + at) == scan_moved(signed_at(b.skip(n), at), n),
{
    lemma_integer_end_moves(b, n, at);
    lemma_integer_end(b.skip(n), at);
    if let Some(end) = integer_end(b.skip(n), at) {
        lemma_values_move(b, n, at, end);
    }
}

proof fn lemma_little_endian_moves(b: Seq<u8>, n: int, at: int, count: nat)
    requires
        0 <= n,
        0 <= at,
        n + at + count <= b.len(),
    ensures
        little_endian(b, n + at, count) == little_endian(b.skip(n), at, count),
    decreases count,
{
    if count > 0 {
        assert(b.skip(n)[at] == b[n + at]);
        lemma_little_endian_moves(b, n, at + 1, (count - 1) as nat);
    }
}

proof fn lemma_string_moves(b: Seq<u8>, n: int, at: int)
    requires
        0 <= n <= b.len(),
        0 <= at,
    ensures
        string_at(b, n + at) == scan_moved(string_at(b.skip(n), at), n),
{
    let c = b.skip(n);
    lemma_integers_move(b, n, at);
    lemma_integer_end(c, at);
    if let Scan::Done(len, start) = unsigned_at(c, at) {
        if start + len <= c.len() {
            assert(b.subrange(n + start, n + start + len) =~= c.subrange(start, start + len));
        }
    }
}

/// A plain value is decided by the bytes from its position on.
proof fn lemma_plain_moves(ty: Type, b: Seq<u8>, n: int, at: int)
    requires
        0 <= n <= b.len(),
        0 <= at,
    ensures
        plain_at(ty, b, n + at) == scan_moved(plain_at(ty, b.skip(n), at), n),
{
    lemma_integers_move(b, n, at);
    lemma_string_moves(b, n, at);
    if n + at < b.len() {
        assert(b.skip(n)[at] == b[n + at]);
    }
    if n + at + 8 <= b.len() {
        lemma_little_endian_moves(b, n, at, 4);
        lemma_little_endian_moves(b, n, at, 8);
    }
}

proof fn lemma_elements_move<T>(
    parent: Type,
    subs: Option<Seq<Option<SubModel<T>>>>,
    b: Seq<u8>,
    n: int,
    at: int,
    count: nat,
)
    requires
        0 <= n <= b.len(),
        0 <= at <= b.len() - n,
    ensures
        elements(parent, subs, b, n + at, count) == moved(
            elements(parent, subs, b.skip(n), at, count),
            n,
        ),
    decreases parent, 0nat, count,
{
    if count > 0 {
        let c = b.skip(n);
        lemma_elements_move(parent, subs, b, n, at, (count - 1) as nat);
        lemma_prefix_of_itself(c);
        lemma_elements_extend(parent, subs, c, c, at, (count - 1) as nat);
        if let Outcome::Done(vs, next) = elements(parent, subs, c, at, (count - 1) as nat) {
            let sub = sub_at(subs, count - 1);
            match parent {
                Type::List(ty) => lemma_receive_moves(*ty, sub, b, n, next),
                Type::Record(fields) => if count <= fields@.len() {
                    lemma_receive_moves(fields@[count - 1].ty, sub, b, n, next);
                },
                Type::Tuple(types) => if count <= types@.len() {
                    lemma_receive_moves(types@[count - 1], sub, b, n, next);
                },
                _ => {},
            }
        }
    }
}

proof fn lemma_receive_moves<T>(
    ty: Type,
    sub: Option<SubModel<T>>,
    b: Seq<u8>,
    n: int,
    at: int,
)
    requires
        0 <= n <= b.len(),
        0 <= at <= b.len() - n,
    ensures
        receive(ty, sub, b, n + at) == moved(receive(ty, sub, b.skip(n), at), n),
    decreases ty, 1nat, 0nat,
{
    let c = b.skip(n);
    lemma_integers_move(b, n, at);
    lemma_integer_end(c, at);
    if n + at < b.len() {
        assert(c[at] == b[n + at]);
    }
    match ty {
        Type::List(_) => {
            if let Scan::Done(count, next) = list_header_at(c, at) {
                lemma_elements_move::<T>(ty, None, b, n, next, count as nat);
            }
        },
        Type::Record(fields) => {
            lemma_elements_move::<T>(ty, None, b, n, at, fields@.len());
            if let Some(SubModel::Record(subs)) = sub {
                lemma_elements_move(ty, Some(subs), b, n, at, fields@.len());
            }
        },
        Type::Tuple(types) => {
            lemma_elements_move::<T>(ty, None, b, n, at, types@.len());
            if let Some(SubModel::Tuple(subs)) = sub {
                lemma_elements_move(ty, Some(subs), b, n, at, types@.len());
            }
        },
        Type::Variant(cases) => {
            if let Scan::Done(i, next) = discriminant_at(c, at) {
                if i < cases@.len() {
                    if let Some(ty) = cases@[i as int].ty {
                        let subs = match sub {
                            Some(SubModel::Variant(subs)) => Some(subs),
                            _ => None,
                        };
                        lemma_receive_moves(ty, sub_at(subs, i as int), b, n, next);
                    }
                }
            }
        },
        Type::Option(some) => {
            if at < c.len() {
                lemma_receive_moves::<T>(*some, None, b, n, at + 1);
                if let Some(SubModel::Option(sub)) = sub {
                    lemma_receive_moves(*some, Some(*sub), b, n, at + 1);
                }
            }
        },
        Type::Result { ok, err } => {
            let (sub_ok, sub_err) = match sub {
                Some(SubModel::Result { ok, err }) => (unboxed(ok), unboxed(err)),
                _ => (None, None),
            };
            if at < c.len() {
                if let Some(ty) = ok {
                    lemma_receive_moves(*ty, sub_ok, b, n, at + 1);
                }
                if let Some(ty) = err {
                    lemma_receive_moves(*ty, sub_err, b, n, at + 1);
                }
            }
        },
        _ => lemma_plain_moves(ty, b, n, at),
    }
}

/// What comes of a position in a payload is what comes of the start of the payload from there on,
/// that many bytes further on: nothing before the position matters.
pub proof fn receive_from_position<T>(ty: Type, sub: Option<SubModel<T>>, b: Seq<u8>, at: int)
    requires
        0 <= at <= b.len(),
    ensures
        receive(ty, sub, b, at) == moved(receive(ty, sub, b.skip(at), 0), at),
{
    lemma_receive_moves(ty, sub, b, at, 0);
}

} // verus!
