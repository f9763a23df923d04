//! Decimal and hexadecimal text for unsigned integers: rendering with
//! zero padding, and the parsing rule that shard and generation numbers
//! in manifest keys follow.

use vstd::prelude::*;

verus! {

/// The character for a digit value below sixteen, in lower case.
pub open spec fn digit_char(d: int) -> char {
    if d < 10 {
        ((48 + d) as u8) as char
    } else {
        ((87 + d) as u8) as char
    }
}

/// The decimal digits of `x`, most significant first, without padding.
pub open spec fn decimal_digits(x: nat) -> Seq<char>
    decreases x,
{
    if x < 10 {
        seq![digit_char(x as int)]
    } else {
        decimal_digits(x / 10).push(digit_char((x % 10) as int))
    }
}

/// `x` in decimal, padded on the left with zeros to at least `width`
/// characters.
pub open spec fn decimal_padded(x: nat, width: nat) -> Seq<char> {
    let d = decimal_digits(x);
    if d.len() >= width {
        d
    } else {
        Seq::new((width - d.len()) as nat, |i: int| '0') + d
    }
}

/// The `n` low hexadecimal digits of `x`, most significant first, in lower
/// case.
pub open spec fn hex_fixed(x: nat, n: nat) -> Seq<char>
    decreases n,
{
    if n == 0 {
        Seq::empty()
    } else {
        hex_fixed(x / 16, (n - 1) as nat).push(digit_char((x % 16) as int))
    }
}

/// The value of a decimal digit character.
pub open spec fn digit_value(c: char) -> int {
    (c as u32) - 48
}

/// Whether `c` is one of `0` to `9`.
pub open spec fn is_decimal_digit(c: char) -> bool {
    48 <= (c as u32) <= 57
}

/// Whether `s` is a non-empty run of decimal digits.
pub open spec fn is_decimal(s: Seq<char>) -> bool {
    s.len() > 0 && forall|i: int| 0 <= i < s.len() ==> is_decimal_digit(#[trigger] s[i])
}

/// The number that a run of decimal digits denotes.
pub open spec fn decimal_value(s: Seq<char>) -> nat
    decreases s.len(),
{
    if s.len() == 0 {
        0
    } else {
        (decimal_value(s.drop_last()) * 10 + digit_value(s.last())) as nat
    }
}

/// What parsing `s` as an unsigned 64-bit decimal gives: an optional
/// leading `+`, then at least one digit, and a value that fits.
pub open spec fn parsed_u64(s: Seq<char>) -> Option<u64> {
    let body = if s.len() > 0 && s[0] == '+' {
        s.drop_first()
    } else {
        s
    };
    if is_decimal(body) && decimal_value(body) <= u64::MAX {
        Some(decimal_value(body) as u64)
    } else {
        None
    }
}

/// A prefix of a digit run denotes no more than the whole run.
pub proof fn lemma_decimal_value_prefix(s: Seq<char>, i: int)
    requires
        0 <= i <= s.len(),
        forall|k: int| 0 <= k < s.len() ==> is_decimal_digit(#[trigger] s[k]),
    ensures
        decimal_value(s.take(i)) <= decimal_value(s),
    decreases s.len() - i,
{
    if i == s.len() {
        assert(s.take(i) =~= s);
    } else {
        lemma_decimal_value_prefix(s, i + 1);
        let t = s.take(i + 1);
        assert(t.drop_last() =~= s.take(i));
        assert(is_decimal_digit(s[i]));
        assert(t.last() == s[i]);
    }
}

/// The decimal digits of a number are digits, and denote the number.
pub proof fn lemma_decimal_roundtrip(x: nat)
    ensures
        is_decimal(decimal_digits(x)),
        decimal_value(decimal_digits(x)) == x,
        decimal_digits(x)[0] != '+',
    decreases x,
{
    let d = decimal_digits(x);
    if x < 10 {
        assert(d.drop_last() =~= Seq::<char>::empty());
        assert(is_decimal_digit(d[0]));
        assert(digit_value(d[0]) == x);
        assert(decimal_value(d.drop_last()) == 0);
    } else {
        lemma_decimal_roundtrip(x / 10);
        let prev = decimal_digits(x / 10);
        let c = digit_char((x % 10) as int);
        assert(d == prev.push(c));
        assert(d.drop_last() =~= prev);
        assert(d.last() == c);
        assert(is_decimal_digit(c));
        assert(digit_value(c) == x % 10);
        assert forall|i: int| 0 <= i < d.len() implies is_decimal_digit(#[trigger] d[i]) by {
            if i < prev.len() {
                assert(d[i] == prev[i]);
            }
        }
        assert(d[0] == prev[0]);
    }
}

/// Reading the decimal digits of a number that fits gives the number.
pub proof fn lemma_parse_decimal(x: u64)
    ensures
        parsed_u64(decimal_digits(x as nat)) == Some(x),
        decimal_digits(x as nat).len() > 0,
        decimal_digits(x as nat)[0] != '+',
{
    lemma_decimal_roundtrip(x as nat);
}

/// The character for a digit value below sixteen.
pub fn digit_to_char(d: u8) -> (c: char)
    requires
        d < 16,
    ensures
        c == digit_char(d as int),
{
    if d < 10 {
        (48u8 + d) as char
    } else {
        (87u8 + d) as char
    }
}

/// `x` in decimal, without padding.
pub fn format_decimal(x: u64) -> (r: Vec<char>)
    ensures
        r@ == decimal_digits(x as nat),
    decreases x,
{
    if x < 10 {
        let mut out: Vec<char> = Vec::new();
        out.push(digit_to_char(x as u8));
        out
    } else {
        let mut out = format_decimal(x / 10);
        out.push(digit_to_char((x % 10) as u8));
        out
    }
}

/// `x` in decimal, padded on the left with zeros to at least `width`
/// characters.
pub fn format_decimal_padded(x: u64, width: usize) -> (r: Vec<char>)
    ensures
        r@ == decimal_padded(x as nat, width as nat),
{
    let d = format_decimal(x);
    if d.len() >= width {
        return d;
    }
    let pad: usize = width - d.len();
    let mut out: Vec<char> = Vec::new();
    let mut i: usize = 0;
    while i < pad
        invariant
            i <= pad,
            out@ == Seq::new(i as nat, |k: int| '0'),
        decreases pad - i,
    {
        out.push('0');
        proof {
            assert(out@ =~= Seq::new((i + 1) as nat, |k: int| '0'));
        }
        i += 1;
    }
    crate::text::push_chars(&mut out, &d);
    out
}

/// The `n` low hexadecimal digits of `x`, most significant first.
pub fn format_hex_fixed(x: u64, n: usize) -> (r: Vec<char>)
    ensures
        r@ == hex_fixed(x as nat, n as nat),
    decreases n,
{
    if n == 0 {
        Vec::new()
    } else {
        let mut out = format_hex_fixed(x / 16, n - 1);
        out.push(digit_to_char((x % 16) as u8));
        out
    }
}

/// Parses an unsigned 64-bit decimal: an optional leading `+`, then at
/// least one digit; `None` for anything else or a value that does not fit.
pub fn parse_u64(s: &Vec<char>) -> (r: Option<u64>)
    ensures
        r == parsed_u64(s@),
{
    let start: usize = if s.len() > 0 && s[0] == '+' {
        1
    } else {
        0
    };
    let ghost body = s@.subrange(start as int, s.len() as int);
    proof {
        if start == 1 {
            assert(body =~= s@.drop_first());
        } else {
            assert(body =~= s@);
        }
    }
    if start == s.len() {
        return None;
    }
    let mut acc: u64 = 0;
    let mut i: usize = start;
    while i < s.len()
        invariant
            start <= i <= s.len(),
            body == s@.subrange(start as int, s.len() as int),
            parsed_u64(s@) == (if is_decimal(body) && decimal_value(body) <= u64::MAX {
                Some(decimal_value(body) as u64)
            } else {
                None::<u64>
            }),
            forall|k: int| 0 <= k < i - start ==> is_decimal_digit(#[trigger] body[k]),
            acc == decimal_value(body.take(i - start)),
        decreases s.len() - i,
    {
        let c = s[i];
        let v: u32 = c as u32;
        proof {
            assert(body[i - start] == c);
            assert(body.take(i - start + 1).drop_last() =~= body.take(i - start));
            assert(body.take(i - start + 1).last() == c);
        }
        if v < 48 || v > 57 {
            proof {
                assert(!is_decimal_digit(body[i - start]));
            }
            return None;
        }
        let d: u64 = (v - 48) as u64;
        let ghost next = decimal_value(body.take(i - start + 1));
        if acc > (u64::MAX - d) / 10 {
            proof {
                assert(next > u64::MAX) by (nonlinear_arith)
                    requires
                        next == acc * 10 + d,
                        acc > (u64::MAX - d) / 10,
                        0 <= d < 10,
                ;
                if is_decimal(body) {
                    lemma_decimal_value_prefix(body, i - start + 1);
                }
            }
            return None;
        }
        assert(acc * 10 + d <= u64::MAX) by (nonlinear_arith)
            requires
                acc <= (u64::MAX - d) / 10,
                0 <= d < 10,
        ;
        acc = acc * 10 + d;
        i += 1;
    }
    proof {
        assert(body.take(s.len() - start) =~= body);
    }
    Some(acc)
}

} // verus!
