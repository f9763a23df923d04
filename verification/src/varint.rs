//! Variable-length integers as the segment files store them: seven bits
//! per byte, low-order group first, the high bit set on every byte but
//! the last.

use vstd::prelude::*;
use vstd::slice::slice_subrange;

verus! {

/// Why a variable-length integer could not be read.
#[derive(Debug, Clone, Copy, PartialEq, Eq, Structural)]
pub enum VarintError {
    /// The bytes ended before a byte without the high bit.
    Truncated,
    /// Ten bytes in a row had the high bit set.
    TooLong,
}

/// The most bytes one encoded value may occupy.
pub const MAX_VARINT_LEN: usize = 10;

/// The encoding of `x`.
pub open spec fn varint_bytes(x: u64) -> Seq<u8>
    decreases x,
{
    if x < 0x80 {
        seq![x as u8]
    } else {
        seq![((x % 0x80) + 0x80) as u8] + varint_bytes(x / 0x80)
    }
}

/// 128 to the power `k`.
pub open spec fn pow128(k: nat) -> nat
    decreases k,
{
    if k == 0 {
        1
    } else {
        128 * pow128((k - 1) as nat)
    }
}

/// The number that the seven-bit groups of `b` spell, low-order group
/// first, before any reduction to 64 bits.
pub open spec fn varint_value(b: Seq<u8>) -> nat
    decreases b.len(),
{
    if b.len() == 0 {
        0
    } else {
        (b[0] % 0x80) as nat + 128 * varint_value(b.drop_first())
    }
}

/// Starting at index `i` of `b`, the number of bytes up to and including
/// the first one without the high bit, if it comes within the first ten
/// bytes of `b`.
pub open spec fn varint_span_from(b: Seq<u8>, i: int) -> Option<int>
    decreases 10 - i,
{
    if i < 0 || i >= 10 || i >= b.len() {
        None
    } else if b[i] < 0x80 {
        Some(i + 1)
    } else {
        varint_span_from(b, i + 1)
    }
}

/// The number of bytes that the value at the start of `b` occupies.
pub open spec fn varint_span(b: Seq<u8>) -> Option<int> {
    varint_span_from(b, 0)
}

/// What reading one value from the start of `b` gives: the value, reduced
/// to 64 bits, and the number of bytes it took.
pub open spec fn varint_decoded(b: Seq<u8>) -> Option<(u64, int)> {
    match varint_span(b) {
        Some(n) => Some(((varint_value(b.take(n)) % 0x1_0000_0000_0000_0000) as u64, n)),
        None => None,
    }
}

/// Whether reading from `b` fails for want of bytes rather than for length.
pub open spec fn varint_truncated(b: Seq<u8>) -> bool {
    varint_span(b) is None && b.len() < 10
}

pub proof fn lemma_varint_value_push(b: Seq<u8>, y: u8)
    ensures
        varint_value(b.push(y)) == varint_value(b) + (y % 0x80) * pow128(b.len()),
    decreases b.len(),
{
    if b.len() == 0 {
        assert(b.push(y).drop_first() =~= Seq::<u8>::empty());
        assert(varint_value(b.push(y).drop_first()) == 0);
        assert(pow128(0) == 1);
        assert((y % 0x80) * pow128(b.len()) == (y % 0x80)) by (nonlinear_arith)
            requires
                pow128(b.len()) == 1,
        ;
    } else {
        lemma_varint_value_push(b.drop_first(), y);
        assert(b.push(y).drop_first() =~= b.drop_first().push(y));
        let r = varint_value(b.drop_first());
        let t = (y % 0x80) as int;
        let p = pow128((b.len() - 1) as nat);
        assert(128 * (r + t * p) == 128 * r + t * (128 * p)) by (nonlinear_arith);
        assert(pow128(b.len()) == 128 * p);
        assert(b.push(y)[0] == b[0]);
        assert(varint_value(b.drop_first().push(y)) == r + t * p);
        assert(varint_value(b.push(y)) == (b[0] % 0x80) + 128 * (r + t * p));
    }
}

pub proof fn lemma_varint_value_bound(b: Seq<u8>)
    ensures
        varint_value(b) < pow128(b.len()),
    decreases b.len(),
{
    if b.len() > 0 {
        lemma_varint_value_bound(b.drop_first());
    }
}

pub proof fn lemma_pow128_10()
    ensures
        pow128(9) == 0x8000_0000_0000_0000,
        pow128(10) == 0x40_0000_0000_0000_0000,
{
    reveal_with_fuel(pow128, 11);
}

/// The span does not depend on what follows the terminating byte.
pub proof fn lemma_span_from_prefix(b: Seq<u8>, i: int, n: int)
    requires
        0 <= i,
        varint_span_from(b, i) == Some(n),
    ensures
        i < n <= 10,
        n <= b.len(),
        b[n - 1] < 0x80,
        forall|k: int| i <= k < n - 1 ==> b[k] >= 0x80,
    decreases 10 - i,
{
    if i < 10 && i < b.len() && b[i] >= 0x80 {
        lemma_span_from_prefix(b, i + 1, n);
    }
}

/// An encoding is between one and ten bytes long.
pub proof fn lemma_varint_bytes_len(x: u64, k: nat)
    requires
        1 <= k,
        x < pow128(k),
    ensures
        1 <= varint_bytes(x).len() <= k,
    decreases x,
{
    if x >= 0x80 {
        assert(k >= 2) by {
            reveal_with_fuel(pow128, 2);
        }
        assert(x / 0x80 < pow128((k - 1) as nat));
        lemma_varint_bytes_len(x / 0x80, (k - 1) as nat);
    }
}

/// Reading back what `varint_bytes` wrote, whatever follows it, gives the
/// value and the encoding's length.
pub proof fn lemma_varint_roundtrip(x: u64, rest: Seq<u8>)
    ensures
        varint_decoded(varint_bytes(x) + rest) == Some((x, varint_bytes(x).len() as int)),
        1 <= varint_bytes(x).len() <= 10,
{
    lemma_pow128_10();
    lemma_varint_bytes_len(x, 10);
    lemma_roundtrip_span(x, rest, Seq::empty());
    assert(Seq::<u8>::empty() + varint_bytes(x) + rest =~= varint_bytes(x) + rest);
    lemma_roundtrip_value(x);
    assert((varint_bytes(x) + rest).take(varint_bytes(x).len() as int) =~= varint_bytes(x));
}

proof fn lemma_roundtrip_span(x: u64, rest: Seq<u8>, before: Seq<u8>)
    requires
        before.len() + varint_bytes(x).len() <= 10,
    ensures
        varint_span_from(before + varint_bytes(x) + rest, before.len() as int) == Some(
            (before.len() + varint_bytes(x).len()) as int,
        ),
    decreases x,
{
    let all = before + varint_bytes(x) + rest;
    let i = before.len() as int;
    assert(all[i] == varint_bytes(x)[0]);
    if x >= 0x80 {
        let first = ((x % 0x80) + 0x80) as u8;
        let b2 = before.push(first);
        assert(b2 + varint_bytes(x / 0x80) + rest =~= all);
        lemma_roundtrip_span(x / 0x80, rest, b2);
    }
}

proof fn lemma_roundtrip_value(x: u64)
    ensures
        varint_value(varint_bytes(x)) == x,
    decreases x,
{
    if x >= 0x80 {
        lemma_roundtrip_value(x / 0x80);
        assert(varint_bytes(x).drop_first() =~= varint_bytes(x / 0x80));
    } else {
        assert(varint_bytes(x).drop_first() =~= Seq::<u8>::empty());
        assert(varint_value(varint_bytes(x).drop_first()) == 0);
    }
}

/// Appends the encoding of `x` to `out`.
pub fn put_varint(x: u64, out: &mut Vec<u8>)
    ensures
        final(out)@ == old(out)@ + varint_bytes(x),
{
    let mut rem: u64 = x;
    let ghost mut done: Seq<u8> = Seq::empty();
    while rem >= 0x80
        invariant
            out@ == old(out)@ + done,
            done + varint_bytes(rem) == varint_bytes(x),
        decreases rem,
    {
        let b: u8 = ((rem % 0x80) + 0x80) as u8;
        out.push(b);
        proof {
            assert(done.push(b) + varint_bytes(rem / 0x80) =~= done + varint_bytes(rem));
            assert(old(out)@ + done.push(b) =~= (old(out)@ + done).push(b));
            done = done.push(b);
        }
        rem = rem / 0x80;
    }
    out.push(rem as u8);
    proof {
        assert((old(out)@ + done).push(rem as u8) =~= old(out)@ + (done + varint_bytes(rem)));
    }
}

/// Reads one value from `bytes` starting at `start`; on success gives the
/// value and the number of bytes it occupied.
pub fn decode_varint(bytes: &[u8], start: usize) -> (r: Result<(u64, usize), VarintError>)
    requires
        start <= bytes.len(),
    ensures
        match r {
            Ok((v, n)) => varint_decoded(bytes@.skip(start as int)) == Some((v, n as int))
                && 1 <= n <= 10 && start + n <= bytes.len(),
            Err(VarintError::Truncated) => varint_decoded(bytes@.skip(start as int)) is None
                && varint_truncated(bytes@.skip(start as int)),
            Err(VarintError::TooLong) => varint_decoded(bytes@.skip(start as int)) is None
                && !varint_truncated(bytes@.skip(start as int)),
        },
{
    let ghost b = bytes@.skip(start as int);
    let mut acc: u128 = 0;
    let mut mul: u128 = 1;
    let mut i: usize = 0;
    proof {
        lemma_pow128_10();
        assert(b.take(0) =~= Seq::<u8>::empty());
    }
    while i < 10 && i < bytes.len() - start
        invariant
            i <= 10,
            start <= bytes.len(),
            i <= bytes.len() - start,
            b == bytes@.skip(start as int),
            varint_span(b) == varint_span_from(b, i as int),
            acc == varint_value(b.take(i as int)),
            mul == pow128(i as nat),
            mul <= 0x8000_0000_0000_0000 || i == 10,
            pow128(9) == 0x8000_0000_0000_0000,
            pow128(10) == 0x40_0000_0000_0000_0000,
        decreases 10 - i,
    {
        let byte: u8 = bytes[start + i];
        let low: u128 = (byte % 0x80) as u128;
        proof {
            assert(b[i as int] == byte);
            assert(b.take(i + 1) =~= b.take(i as int).push(byte));
            lemma_varint_value_push(b.take(i as int), byte);
            lemma_varint_value_bound(b.take(i as int));
            assert(low * mul <= 127 * 0x8000_0000_0000_0000) by (nonlinear_arith)
                requires
                    0 <= low <= 127,
                    0 <= mul <= 0x8000_0000_0000_0000,
            ;
            assert(pow128((i + 1) as nat) == 128 * mul);
            assert(mul <= pow128(9)) by {
                lemma_pow128_monotonic(i as nat, 9);
            }
        }
        acc = acc + low * mul;
        if byte < 0x80 {
            let v: u64 = (acc % 0x1_0000_0000_0000_0000) as u64;
            return Ok((v, i + 1));
        }
        mul = mul * 128;
        i += 1;
        proof {
            if i < 10 {
                lemma_pow128_monotonic(i as nat, 9);
            }
        }
    }
    if i >= 10 {
        Err(VarintError::TooLong)
    } else {
        Err(VarintError::Truncated)
    }
}

pub proof fn lemma_pow128_monotonic(a: nat, b: nat)
    requires
        a <= b,
    ensures
        pow128(a) <= pow128(b),
        pow128(a) >= 1,
    decreases b,
{
    if a < b {
        lemma_pow128_monotonic(a, (b - 1) as nat);
    } else if a > 0 {
        lemma_pow128_monotonic((a - 1) as nat, (a - 1) as nat);
    }
}

/// Reads one value from the start of `bytes`; gives the value and the
/// bytes that follow it, or `None` where no complete value of at most ten
/// bytes stands there.
pub fn get_varint(bytes: &[u8]) -> (r: Option<(u64, &[u8])>)
    ensures
        match r {
            Some((v, rest)) => (varint_decoded(bytes@) matches Some(d) && v == d.0 && rest@
                == bytes@.skip(d.1)),
            None => varint_decoded(bytes@) is None,
        },
{
    proof {
        assert(bytes@.skip(0) =~= bytes@);
    }
    match decode_varint(bytes, 0) {
        Ok((v, n)) => {
            let rest = slice_subrange(bytes, n, bytes.len());
            proof {
                assert(rest@ =~= bytes@.skip(n as int));
            }
            Some((v, rest))
        },
        Err(_) => None,
    }
}

/// Reads one value from the start of `bytes`; gives the value and the
/// number of bytes it occupied.
pub fn get_uvar_u64(bytes: &[u8]) -> (r: Result<(u64, usize), VarintError>)
    ensures
        match r {
            Ok((v, n)) => varint_decoded(bytes@) == Some((v, n as int)),
            Err(VarintError::Truncated) => varint_decoded(bytes@) is None && varint_truncated(
                bytes@,
            ),
            Err(VarintError::TooLong) => varint_decoded(bytes@) is None && !varint_truncated(
                bytes@,
            ),
        },
{
    proof {
        assert(bytes@.skip(0) =~= bytes@);
    }
    decode_varint(bytes, 0)
}

/// Appends the encoding of `x` to the byte sink `w`.
pub fn put_varint_to_writer(x: u64, w: &mut Vec<u8>)
    ensures
        final(w)@ == old(w)@ + varint_bytes(x),
{
    put_varint(x, w)
}

/// Appends the encoding of `x` to `out`.
pub fn write_uvarint(out: &mut Vec<u8>, x: u64)
    ensures
        final(out)@ == old(out)@ + varint_bytes(x),
{
    put_varint(x, out)
}

/// Reads one value from the start of `bytes`.
pub fn read_uvarint(bytes: &[u8]) -> (r: Result<u64, VarintError>)
    ensures
        match r {
            Ok(v) => (varint_decoded(bytes@) matches Some(d) && v == d.0),
            Err(VarintError::Truncated) => varint_decoded(bytes@) is None && varint_truncated(
                bytes@,
            ),
            Err(VarintError::TooLong) => varint_decoded(bytes@) is None && !varint_truncated(
                bytes@,
            ),
        },
{
    match get_uvar_u64(bytes) {
        Ok((v, _)) => Ok(v),
        Err(e) => Err(e),
    }
}

} // verus!
