//! Integers in little endian base 128: seven bits to a byte, and the high bit set on every byte
//! but the last.
use vstd::prelude::*;

use crate::scan::{ReceiveError, Scan, Scanned};

verus! {

/// The position after the first byte, at `at` or later, whose high bit is clear.
pub open spec fn integer_end(b: Seq<u8>, at: int) -> Option<int>
    decreases b.len() - at,
{
    if at < 0 || at >= b.len() {
        None
    } else if b[at] < 128 {
        Some(at + 1)
    } else {
        integer_end(b, at + 1)
    }
}

/// The number whose base 128 digits, least significant first, are the low bits of `b[at..end]`.
pub open spec fn unsigned_value(b: Seq<u8>, at: int, end: int) -> nat
    decreases end - at,
{
    if at >= end {
        0
    } else {
        (b[at] % 128) as nat + 128 * unsigned_value(b, at + 1, end)
    }
}

/// The two's complement number whose base 128 digits are the low bits of `b[at..end]`.
pub open spec fn signed_value(b: Seq<u8>, at: int, end: int) -> int
    decreases end - at,
{
    if at + 1 >= end {
        if b[at] % 128 < 64 {
            b[at] as int % 128
        } else {
            b[at] as int % 128 - 128
        }
    } else {
        b[at] as int % 128 + 128 * signed_value(b, at + 1, end)
    }
}

/// The unsigned integer at `at`: at most ten bytes, and at most 64 bits.
pub open spec fn unsigned_at(b: Seq<u8>, at: int) -> Scan<u64> {
    match integer_end(b, at) {
        None => Scan::Incomplete,
        Some(end) => {
            let v = unsigned_value(b, at, end);
            if end - at <= 10 && v <= u64::MAX {
                Scan::Done(v as u64, end)
            } else {
                Scan::Failed(ReceiveError::Leb128Overflow)
            }
        },
    }
}

/// The signed integer at `at`: at most ten bytes, and at most 64 bits.
pub open spec fn signed_at(b: Seq<u8>, at: int) -> Scan<i64> {
    match integer_end(b, at) {
        None => Scan::Incomplete,
        Some(end) => {
            let v = signed_value(b, at, end);
            if end - at <= 10 && i64::MIN <= v <= i64::MAX {
                Scan::Done(v as i64, end)
            } else {
                Scan::Failed(ReceiveError::Leb128Overflow)
            }
        },
    }
}

/// `128` to the power of `n`.
spec fn power128(n: nat) -> nat
    decreases n,
{
    if n == 0 {
        1
    } else {
        128 * power128((n - 1) as nat)
    }
}

proof fn lemma_power128(n: nat)
    requires
        n <= 10,
    ensures
        1 <= power128(n) <= 0x40_0000_0000_0000_0000,
        n == 10 ==> power128(n) == 0x40_0000_0000_0000_0000,
    decreases 10 - n,
{
    assert(power128(10) == 0x40_0000_0000_0000_0000) by {
        reveal_with_fuel(power128, 11);
    }
    if n < 10 {
        lemma_power128(n + 1);
    }
}

/// An integer ends at the first byte whose high bit is clear.
pub proof fn lemma_integer_end(b: Seq<u8>, at: int)
    requires
        0 <= at,
    ensures
        integer_end(b, at) matches Some(end) ==> at < end <= b.len() && b[end - 1] < 128 && (
        forall|i: int| at <= i < end - 1 ==> b[i] >= 128),
        integer_end(b, at) is None ==> forall|i: int| at <= i < b.len() ==> b[i] >= 128,
    decreases b.len() - at,
{
    if at < b.len() && b[at] >= 128 {
        lemma_integer_end(b, at + 1);
    }
}

/// The first terminated integer is the one that ends where every earlier byte continues.
proof fn lemma_integer_end_at(b: Seq<u8>, at: int, end: int)
    requires
        0 <= at < end <= b.len(),
        b[end - 1] < 128,
        forall|i: int| at <= i < end - 1 ==> b[i] >= 128,
    ensures
        integer_end(b, at) == Some(end),
    decreases end - at,
{
    if at + 1 < end {
        assert(b[at] >= 128);
        lemma_integer_end_at(b, at + 1, end);
    }
}

proof fn lemma_integer_end_none(b: Seq<u8>, at: int)
    requires
        0 <= at,
        forall|i: int| at <= i < b.len() ==> b[i] >= 128,
    ensures
        integer_end(b, at) is None,
    decreases b.len() - at,
{
    if at < b.len() {
        assert(b[at] >= 128);
        lemma_integer_end_none(b, at + 1);
    }
}

/// Finds the end of the integer that starts at `at`.
fn find_end(b: &[u8], at: usize) -> (end: Option<usize>)
    ensures
        match end {
            Some(end) => integer_end(b@, at as int) == Some(end as int),
            None => integer_end(b@, at as int) is None,
        },
{
    let mut i: usize = at;
    while i < b.len()
        invariant
            at <= i,
            i <= b@.len() || i == at,
            forall|j: int| at <= j < i ==> b@[j] >= 128,
        decreases b@.len() - i,
    {
        if b[i] < 128 {
            proof {
                lemma_integer_end_at(b@, at as int, i as int + 1);
            }
            return Some(i + 1);
        }
        i = i + 1;
    }
    proof {
        lemma_integer_end_none(b@, at as int);
    }
    None
}

/// Reads the unsigned integer at `at`.
pub fn read_unsigned(b: &[u8], at: usize) -> (r: Scanned<u64>)
    ensures
        r@ == unsigned_at(b@, at as int),
{
    let end: usize = match find_end(b, at) {
        Some(end) => end,
        None => return Scanned::Incomplete,
    };
    proof {
        lemma_integer_end(b@, at as int);
    }
    if end - at > 10 {
        return Scanned::Failed(ReceiveError::Leb128Overflow);
    }
    let mut i: usize = end;
    let mut acc: u128 = 0;
    while i > at
        invariant
            at <= i <= end <= b@.len(),
            end - at <= 10,
            acc == unsigned_value(b@, i as int, end as int),
            acc < power128((end - i) as nat),
        decreases i,
    {
        i = i - 1;
        proof {
            lemma_power128((end - i) as nat);
        }
        acc = acc * 128 + (b[i] % 128) as u128;
    }
    if acc <= u64::MAX as u128 {
        Scanned::Done(acc as u64, end)
    } else {
        Scanned::Failed(ReceiveError::Leb128Overflow)
    }
}

/// Reads the signed integer at `at`.
pub fn read_signed(b: &[u8], at: usize) -> (r: Scanned<i64>)
    ensures
        r@ == signed_at(b@, at as int),
{
    let end: usize = match find_end(b, at) {
        Some(end) => end,
        None => return Scanned::Incomplete,
    };
    proof {
        lemma_integer_end(b@, at as int);
    }
    if end - at > 10 {
        return Scanned::Failed(ReceiveError::Leb128Overflow);
    }
    let last: i128 = (b[end - 1] % 128) as i128;
    let mut i: usize = end - 1;
    let mut acc: i128 = if last < 64 {
        last
    } else {
        last - 128
    };
    assert(power128(1) == 128) by {
        reveal_with_fuel(power128, 2);
    }
    while i > at
        invariant
            at <= i < end <= b@.len(),
            end - at <= 10,
            acc == signed_value(b@, i as int, end as int),
            -power128((end - i) as nat) <= acc < power128((end - i) as nat),
        decreases i,
    {
        i = i - 1;
        proof {
            lemma_power128((end - i) as nat);
        }
        acc = acc * 128 + (b[i] % 128) as i128;
    }
    if i64::MIN as i128 <= acc && acc <= i64::MAX as i128 {
        Scanned::Done(acc as i64, end)
    } else {
        Scanned::Failed(ReceiveError::Leb128Overflow)
    }
}

/// The bytes of an unsigned integer, as few as there can be.
pub open spec fn unsigned_bytes(v: nat) -> Seq<u8>
    decreases v,
{
    if v < 128 {
        seq![v as u8]
    } else {
        seq![(v % 128 + 128) as u8] + unsigned_bytes(v / 128)
    }
}

/// The bytes of a signed integer, as few as there can be.
pub open spec fn signed_bytes(v: int) -> Seq<u8>
    decreases
            if v < 0 {
                -v
            } else {
                v
            },
{
    if -64 <= v < 64 {
        seq![(v % 128) as u8]
    } else {
        seq![(v % 128 + 128) as u8] + signed_bytes(v / 128)
    }
}

/// Whether `bytes` are what a buffer holds at `at`.
pub open spec fn holds_at(b: Seq<u8>, at: int, bytes: Seq<u8>) -> bool {
    &&& 0 <= at
    &&& at + bytes.len() <= b.len()
    &&& forall|i: int| 0 <= i < bytes.len() ==> #[trigger] b[at + i] == bytes[i]
}

/// What holds of a concatenation holds of its parts.
pub proof fn lemma_holds_at_parts(b: Seq<u8>, at: int, first: Seq<u8>, second: Seq<u8>)
    requires
        holds_at(b, at, first + second),
    ensures
        holds_at(b, at, first),
        holds_at(b, at + first.len(), second),
{
    let all = first + second;
    assert forall|i: int| 0 <= i < first.len() implies #[trigger] b[at + i] == first[i] by {
        assert(all[i] == first[i]);
    }
    assert forall|i: int| 0 <= i < second.len() implies #[trigger] b[at + first.len() + i]
        == second[i] by {
        assert(all[first.len() + i] == second[i]);
        assert(b[at + (first.len() + i)] == all[first.len() + i]);
    }
}

proof fn lemma_unsigned_bytes(v: nat, b: Seq<u8>, at: int, k: nat)
    requires
        holds_at(b, at, unsigned_bytes(v)),
        k > 0,
        v < power128(k),
    ensures
        integer_end(b, at) == Some(at + unsigned_bytes(v).len()),
        unsigned_value(b, at, at + unsigned_bytes(v).len()) == v,
        1 <= unsigned_bytes(v).len() <= k,
    decreases v,
{
    assert(b[at + 0] == unsigned_bytes(v)[0]);
    reveal_with_fuel(unsigned_value, 2);
    if v >= 128 {
        lemma_holds_at_parts(b, at, seq![(v % 128 + 128) as u8], unsigned_bytes(v / 128));
        assert(power128(1) == 128) by {
            reveal_with_fuel(power128, 2);
        }
        lemma_unsigned_bytes(v / 128, b, at + 1, (k - 1) as nat);
    }
}

/// The bytes of an unsigned integer of 64 bits are read as that integer.
pub proof fn unsigned_round_trip(v: u64, b: Seq<u8>, at: int)
    requires
        holds_at(b, at, unsigned_bytes(v as nat)),
    ensures
        unsigned_at(b, at) == Scan::Done(v, at + unsigned_bytes(v as nat).len()),
{
    lemma_power128(10);
    lemma_unsigned_bytes(v as nat, b, at, 10);
}

proof fn lemma_signed_bytes(v: int, b: Seq<u8>, at: int, k: nat)
    requires
        holds_at(b, at, signed_bytes(v)),
        k > 0,
        -64 * power128((k - 1) as nat) <= v < 64 * power128((k - 1) as nat),
    ensures
        integer_end(b, at) == Some(at + signed_bytes(v).len()),
        signed_value(b, at, at + signed_bytes(v).len()) == v,
        1 <= signed_bytes(v).len() <= k,
    decreases
            if v < 0 {
                -v
            } else {
                v
            },
{
    assert(b[at + 0] == signed_bytes(v)[0]);
    if -64 <= v < 64 {
    } else {
        lemma_holds_at_parts(b, at, seq![(v % 128 + 128) as u8], signed_bytes(v / 128));
        assert(k > 1);
        lemma_signed_bytes(v / 128, b, at + 1, (k - 1) as nat);
    }
}

/// The bytes of a signed integer of 64 bits are read as that integer.
pub proof fn signed_round_trip(v: i64, b: Seq<u8>, at: int)
    requires
        holds_at(b, at, signed_bytes(v as int)),
    ensures
        signed_at(b, at) == Scan::Done(v, at + signed_bytes(v as int).len()),
{
    lemma_power128(10);
    lemma_power128(9);
    assert(128 * power128(9) == power128(10));
    lemma_signed_bytes(v as int, b, at, 10);
}

} // verus!
