//! Small text helpers: characters onto strings, and integers as decimal or hex text.
use vstd::prelude::*;

verus! {

/// The ASCII character of a decimal digit.
pub open spec fn digit_char(d: nat) -> char {
    (48 + d) as char
}

/// The decimal text of `n`, without leading zeros ("0" for zero).
pub open spec fn decimal(n: nat) -> Seq<char>
    decreases n,
{
    if n < 10 {
        seq![digit_char(n)]
    } else {
        decimal(n / 10).push(digit_char(n % 10))
    }
}

/// The lower-case hexadecimal character of a nibble.
pub open spec fn hex_char(d: nat) -> char {
    if d < 10 {
        (48 + d) as char
    } else {
        (87 + d) as char
    }
}

/// The eight lower-case hexadecimal digits of `x`, most significant first.
pub open spec fn hex8(x: u32) -> Seq<char> {
    Seq::new(8, |i: int| hex_char(((x as nat) / pow16((7 - i) as nat)) % 16))
}

/// `16` to the power `e`.
pub open spec fn pow16(e: nat) -> nat
    decreases e,
{
    if e == 0 {
        1
    } else {
        16 * pow16((e - 1) as nat)
    }
}

/// Appends one character to a string (`String::push`).
#[verifier::external_body]
pub(crate) fn push_char(s: &mut String, c: char)
    ensures
        final(s)@ == old(s)@.push(c),
{
    s.push(c);
}

/// The decimal text of `n`, as `u64::to_string` writes it.
pub(crate) fn u64_text(n: u64) -> (r: String)
    ensures
        r@ == decimal(n as nat),
    decreases n,
{
    let d = (n % 10) as u8;
    let c = (d + 48) as char;
    assert(c == digit_char((n % 10) as nat));
    if n < 10 {
        let mut s = String::new();
        push_char(&mut s, c);
        assert(s@ =~= seq![c]);
        s
    } else {
        let mut s = u64_text(n / 10);
        push_char(&mut s, c);
        s
    }
}

/// `16` to a power is positive, and one power more is sixteen times as much.
proof fn lemma_pow16_step(e: nat)
    ensures
        pow16(e) > 0,
        pow16(e + 1) == pow16(e) * 16,
    decreases e,
{
    if e > 0 {
        lemma_pow16_step((e - 1) as nat);
    }
}

/// The eight-digit lower-case hexadecimal text of `x`, as `format!("{:08x}")` writes it.
pub(crate) fn hex8_text(x: u32) -> (r: String)
    ensures
        r@ == hex8(x),
{
    let mut digits: Vec<char> = vec!['0'; 8];
    let mut v: u32 = x;
    let mut j: usize = 0;
    assert(pow16(0) == 1);
    assert((x as nat) / 1 == x as nat);
    while j < 8
        invariant
            j <= 8,
            digits@.len() == 8,
            v as nat == (x as nat) / pow16(j as nat),
            forall|k: int| 8 - j <= k < 8 ==> #[trigger] digits@[k] == hex8(x)[k],
        decreases 8 - j,
    {
        let d = (v % 16) as u8;
        let c = if d < 10 {
            (d + 48) as char
        } else {
            (d + 87) as char
        };
        proof {
            lemma_pow16_step(j as nat);
            assert(hex8(x)[7 - j as int] == hex_char(((x as nat) / pow16(j as nat)) % 16));
            assert(c == hex_char((v % 16) as nat));
            vstd::arithmetic::div_mod::lemma_div_denominator(x as int, pow16(j as nat) as int, 16);
        }
        digits.set(7 - j, c);
        v = v / 16;
        j = j + 1;
    }
    let mut s = String::new();
    let mut k: usize = 0;
    while k < 8
        invariant
            k <= 8,
            digits@.len() == 8,
            forall|i: int| 0 <= i < 8 ==> #[trigger] digits@[i] == hex8(x)[i],
            s@ == digits@.take(k as int),
        decreases 8 - k,
    {
        push_char(&mut s, digits[k]);
        k = k + 1;
        assert(s@ =~= digits@.take(k as int));
    }
    assert(s@ =~= hex8(x));
    s
}

/// A string made of `prefix` followed by `tail`.
pub fn joined(prefix: &str, tail: &str) -> (r: String)
    ensures
        r@ == prefix@ + tail@,
{
    let mut r = String::from_str(prefix);
    r.append(tail);
    r
}

/// `s` reads exactly `lit`.
pub fn text_is(s: &String, lit: &str) -> (r: bool)
    ensures
        r == (s@ == lit@),
{
    let t = lit.to_owned();
    *s == t
}

/// `c` is an ASCII decimal digit.
pub open spec fn ascii_digit(c: char) -> bool {
    '0' <= c <= '9'
}

/// The value of a text of ASCII digits.
pub open spec fn digits_value(s: Seq<char>) -> nat
    decreases s.len(),
{
    if s.len() == 0 {
        0
    } else {
        digits_value(s.drop_last()) * 10 + ((s.last() as nat) - 48) as nat
    }
}

/// The `u64` that `s` denotes, read as an optional `+` and one or more ASCII digits.
pub open spec fn u64_text_value(s: Seq<char>) -> Option<u64> {
    let body = if s.len() > 0 && s[0] == '+' {
        s.drop_first()
    } else {
        s
    };
    if body.len() > 0 && (forall|i: int| 0 <= i < body.len() ==> ascii_digit(#[trigger] body[i]))
        && digits_value(body) <= u64::MAX {
        Some(digits_value(body) as u64)
    } else {
        None
    }
}

/// `str::parse::<u64>`, keeping only whether and what it read.
#[verifier::external_body]
pub(crate) fn parse_u64(s: &str) -> (r: Option<u64>)
    ensures
        r == u64_text_value(s@),
{
    match s.parse::<u64>() {
        Ok(v) => Some(v),
        Err(_) => None,
    }
}

} // verus!
