use vstd::prelude::*;

verus! {

/// Appends `tail` to `text`, through `String::push_str`, which std documents as appending the given
/// string slice onto the end of the string.
#[verifier::external_body]
pub(crate) fn push_str(text: &mut String, tail: &str)
    ensures
        final(text)@ == old(text)@ + tail@,
{
    text.push_str(tail);
}

/// Appends `c` to `text`, through `String::push`, which std documents as appending the given char to
/// the end of the string.
#[verifier::external_body]
pub(crate) fn push_char(text: &mut String, c: char)
    ensures
        final(text)@ == old(text)@.push(c),
{
    text.push(c);
}

/// `head` followed by `tail`, as a new string.
pub fn concat(head: &str, tail: &str) -> (joined: String)
    ensures
        joined@ == head@ + tail@,
{
    let mut joined = head.to_owned();
    push_str(&mut joined, tail);
    joined
}

/// The character of a decimal digit.
pub open spec fn decimal_char(d: int) -> char {
    (d + 48) as char
}

/// `n` in decimal, with no leading zeros; `0` for zero.
pub open spec fn decimal(n: nat) -> Seq<char>
    decreases n,
{
    if n < 10 {
        seq![decimal_char(n as int)]
    } else {
        decimal(n / 10).push(decimal_char((n % 10) as int))
    }
}

fn digit_char(d: u64) -> (c: char)
    requires
        d < 16,
    ensures
        d < 10 ==> c == decimal_char(d as int),
        d >= 10 ==> c == hex_char(d as int),
{
    let code: u8 = if d < 10 { 48 + d as u8 } else { 87 + d as u8 };
    code as char
}

/// Appends `n` in decimal to `out`.
pub fn push_decimal(out: &mut String, n: u64)
    ensures
        final(out)@ == old(out)@ + decimal(n as nat),
    decreases n,
{
    if n >= 10 {
        push_decimal(out, n / 10);
    }
    push_char(out, digit_char(n % 10));
    proof {
        if n >= 10 {
            assert(decimal(n as nat) == decimal((n / 10) as nat).push(decimal_char((n % 10) as int)));
        }
    }
}

/// `n` in decimal, as a new string.
pub fn decimal_text(n: u64) -> (text: String)
    ensures
        text@ == decimal(n as nat),
{
    let mut text = String::new();
    push_decimal(&mut text, n);
    proof {
        assert(text@ =~= Seq::<char>::empty() + decimal(n as nat));
    }
    text
}

/// The character of a hexadecimal digit, lower case.
pub open spec fn hex_char(d: int) -> char {
    if d < 10 {
        decimal_char(d)
    } else {
        (d + 87) as char
    }
}

/// `16^k`.
pub open spec fn power16(k: nat) -> nat
    decreases k,
{
    if k == 0 {
        1
    } else {
        16 * power16((k - 1) as nat)
    }
}

/// The last `k` hexadecimal digits of `n`, lower case, zero-padded.
pub open spec fn hex_fixed(n: nat, k: nat) -> Seq<char>
    decreases k,
{
    if k == 0 {
        seq![]
    } else {
        hex_fixed(n / 16, (k - 1) as nat).push(hex_char((n % 16) as int))
    }
}

/// How a build prints a digest: `0x` and sixteen lower-case hexadecimal digits.
pub open spec fn spec_hexadecimal(digest: u64) -> Seq<char> {
    seq!['0', 'x'] + hex_fixed(digest as nat, 16)
}

fn push_hex_fixed(out: &mut String, n: u64, k: u32)
    requires
        k <= 16,
    ensures
        final(out)@ == old(out)@ + hex_fixed(n as nat, k as nat),
    decreases k,
{
    if k > 0 {
        push_hex_fixed(out, n / 16, k - 1);
        push_char(out, digit_char(n % 16));
        proof {
            assert(hex_fixed(n as nat, k as nat) == hex_fixed((n / 16) as nat, (k - 1) as nat).push(
                hex_char((n % 16) as int),
            ));
        }
    } else {
        proof {
            assert(old(out)@ + hex_fixed(n as nat, 0) =~= old(out)@);
        }
    }
}

/// A digest as it is published: `0x` and sixteen lower-case hexadecimal digits, zero-padded.
///
/// A string rather than a number: it is an identity and not a quantity, and a `u64` past 2^53 does not
/// survive a consumer that parses numbers as doubles.
pub fn hexadecimal(digest: u64) -> (text: String)
    ensures
        text@ == spec_hexadecimal(digest),
{
    let mut text = "0x".to_owned();
    proof {
        reveal_strlit("0x");
        assert(text@ =~= seq!['0', 'x']);
    }
    push_hex_fixed(&mut text, digest, 16);
    text
}

/// Why a string is not an unsigned integer in base sixteen.
#[derive(Debug, Clone, Copy, PartialEq, Eq, Structural)]
pub enum IntErrorKind {
    /// There was nothing to read.
    Empty,
    /// A character that is not a digit of the base.
    InvalidDigit,
    /// A value past the largest the type holds.
    PosOverflow,
}

/// Whether `c` is a hexadecimal digit, in either case.
pub open spec fn is_hex_digit(c: char) -> bool {
    ('0' <= c && c <= '9') || ('a' <= c && c <= 'f') || ('A' <= c && c <= 'F')
}

/// The value of a hexadecimal digit.
pub open spec fn hex_value(c: char) -> int {
    if '0' <= c && c <= '9' {
        c as int - 48
    } else if 'a' <= c && c <= 'f' {
        c as int - 87
    } else {
        c as int - 55
    }
}

/// Reading hexadecimal digits left to right into a `u64`: the first character that is not a digit is
/// an invalid digit, and the first digit that takes the value past `u64::MAX` is an overflow.
pub open spec fn radix16(digits: Seq<char>) -> Result<u64, IntErrorKind>
    decreases digits.len(),
{
    if digits.len() == 0 {
        Ok(0)
    } else {
        match radix16(digits.drop_last()) {
            Err(e) => Err(e),
            Ok(v) => if !is_hex_digit(digits.last()) {
                Err(IntErrorKind::InvalidDigit)
            } else if v * 16 + hex_value(digits.last()) > u64::MAX {
                Err(IntErrorKind::PosOverflow)
            } else {
                Ok((v * 16 + hex_value(digits.last())) as u64)
            },
        }
    }
}

/// What std's `u64::from_str_radix(s, 16)` gives: nothing to read is empty, a sign alone is an invalid
/// digit, one leading `+` is skipped, and the rest is read as [`radix16`] reads it.
pub open spec fn spec_from_hex(s: Seq<char>) -> Result<u64, IntErrorKind> {
    if s.len() == 0 {
        Err(IntErrorKind::Empty)
    } else if s.len() == 1 && (s[0] == '+' || s[0] == '-') {
        Err(IntErrorKind::InvalidDigit)
    } else if s[0] == '+' {
        radix16(s.drop_first())
    } else {
        radix16(s)
    }
}

fn hex_digit_value(c: char) -> (v: Option<u64>)
    ensures
        v is Some <==> is_hex_digit(c),
        v matches Some(d) ==> d == hex_value(c) && d < 16,
{
    if '0' <= c && c <= '9' {
        Some((c as u32 - 48) as u64)
    } else if 'a' <= c && c <= 'f' {
        Some((c as u32 - 87) as u64)
    } else if 'A' <= c && c <= 'F' {
        Some((c as u32 - 55) as u64)
    } else {
        None
    }
}

/// Reads the characters of `s` from index `from` on as [`radix16`] does.
fn read_radix16(s: &str, from: usize) -> (read: Result<u64, IntErrorKind>)
    requires
        from <= s@.len(),
    ensures
        read == radix16(s@.subrange(from as int, s@.len() as int)),
{
    let n = s.unicode_len();
    let mut value: u64 = 0;
    let mut i = from;
    while i < n
        invariant
            from <= i <= n,
            n == s@.len(),
            radix16(s@.subrange(from as int, i as int)) == Ok::<u64, IntErrorKind>(value),
        decreases n - i,
    {
        let c = s.get_char(i);
        proof {
            assert(s@.subrange(from as int, i + 1).drop_last() =~= s@.subrange(from as int, i as int));
            assert(s@.subrange(from as int, i + 1).last() == c);
        }
        match hex_digit_value(c) {
            None => {
                proof {
                    assert(s@.subrange(from as int, i + 1) =~= s@.subrange(from as int, n as int).subrange(0, i + 1 - from));
                    lemma_radix16_error_persists(s@.subrange(from as int, i + 1), s@.subrange(from as int, n as int));
                }
                return Err(IntErrorKind::InvalidDigit);
            },
            Some(d) => {
                if value > (u64::MAX - d) / 16 {
                    proof {
                        assert(value * 16 + d > u64::MAX) by (nonlinear_arith)
                            requires
                                value > (u64::MAX - d) / 16,
                                d < 16,
                        ;
                        assert(s@.subrange(from as int, i + 1) =~= s@.subrange(from as int, n as int).subrange(0, i + 1 - from));
                        lemma_radix16_error_persists(s@.subrange(from as int, i + 1), s@.subrange(from as int, n as int));
                    }
                    return Err(IntErrorKind::PosOverflow);
                }
                proof {
                    assert(value * 16 + d <= u64::MAX) by (nonlinear_arith)
                        requires
                            value <= (u64::MAX - d) / 16,
                            d < 16,
                    ;
                }
                value = value * 16 + d;
            },
        }
        i = i + 1;
    }
    Ok(value)
}

/// An error on a prefix is the error of the whole: reading stops at the first bad character.
proof fn lemma_radix16_error_persists(prefix: Seq<char>, whole: Seq<char>)
    requires
        prefix.len() <= whole.len(),
        prefix == whole.subrange(0, prefix.len() as int),
        radix16(prefix) is Err,
    ensures
        radix16(whole) == radix16(prefix),
    decreases whole.len(),
{
    if whole.len() > prefix.len() {
        assert(prefix == whole.drop_last().subrange(0, prefix.len() as int));
        lemma_radix16_error_persists(prefix, whole.drop_last());
    } else {
        assert(prefix =~= whole);
    }
}

/// `u64::from_str_radix(s, 16)`, in the terms [`spec_from_hex`] states.
pub fn from_hex(s: &str, from: usize) -> (read: Result<u64, IntErrorKind>)
    requires
        from <= s@.len(),
    ensures
        read == spec_from_hex(s@.subrange(from as int, s@.len() as int)),
{
    let n = s.unicode_len();
    let digits = Ghost(s@.subrange(from as int, s@.len() as int));
    if from == n {
        return Err(IntErrorKind::Empty);
    }
    let first = s.get_char(from);
    proof {
        assert(digits@[0] == first);
    }
    if n - from == 1 && (first == '+' || first == '-') {
        return Err(IntErrorKind::InvalidDigit);
    }
    if first == '+' {
        proof {
            assert(digits@.drop_first() =~= s@.subrange(from + 1, s@.len() as int));
        }
        read_radix16(s, from + 1)
    } else {
        read_radix16(s, from)
    }
}

/// What std prints for each way an integer fails to parse.
pub open spec fn int_error_text(kind: IntErrorKind) -> Seq<char> {
    match kind {
        IntErrorKind::Empty => "cannot parse integer from empty string"@,
        IntErrorKind::InvalidDigit => "invalid digit found in string"@,
        IntErrorKind::PosOverflow => "number too large to fit in target type"@,
    }
}

pub fn int_error_message(kind: IntErrorKind) -> (text: &'static str)
    ensures
        text@ == int_error_text(kind),
{
    match kind {
        IntErrorKind::Empty => "cannot parse integer from empty string",
        IntErrorKind::InvalidDigit => "invalid digit found in string",
        IntErrorKind::PosOverflow => "number too large to fit in target type",
    }
}

/// Where the digits of a digest start: after a leading `0x`, if there is one.
pub open spec fn digest_digits_from(value: Seq<char>) -> int {
    if value.len() >= 2 && value[0] == '0' && value[1] == 'x' {
        2
    } else {
        0
    }
}

/// What a digest reads as: the digits after an optional `0x`, in base sixteen.
pub open spec fn spec_read_digest(value: Seq<char>) -> Result<u64, IntErrorKind> {
    spec_from_hex(value.subrange(digest_digits_from(value), value.len() as int))
}

/// The message a digest that does not read is refused with.
pub open spec fn digest_refusal(value: Seq<char>, kind: IntErrorKind) -> Seq<char> {
    "`"@ + value + "` is not a 64-bit hexadecimal digest: "@ + int_error_text(kind)
}

/// Accepts what a build printed, `0x` and all, because the digest a query needs is copied from one
/// document into one flag.
pub fn parse_digest(value: &str) -> (digest: Result<u64, String>)
    ensures
        match spec_read_digest(value@) {
            Ok(d) => digest == Ok::<u64, String>(d),
            Err(kind) => digest matches Err(message) && message@ == digest_refusal(value@, kind),
        },
{
    let n = value.unicode_len();
    let from: usize = if n >= 2 && value.get_char(0) == '0' && value.get_char(1) == 'x' {
        2
    } else {
        0
    };
    match from_hex(value, from) {
        Ok(d) => Ok(d),
        Err(kind) => {
            let mut message = "`".to_owned();
            push_str(&mut message, value);
            push_str(&mut message, "` is not a 64-bit hexadecimal digest: ");
            push_str(&mut message, int_error_message(kind));
            Err(message)
        },
    }
}

proof fn lemma_power16_grows(j: nat, k: nat)
    requires
        j <= k,
    ensures
        0 < power16(j) <= power16(k),
    decreases k,
{
    if k > j {
        lemma_power16_grows(j, (k - 1) as nat);
    } else if k > 0 {
        lemma_power16_grows(0, (k - 1) as nat);
    }
}

proof fn lemma_power16_16()
    ensures
        power16(16) == 0x1_0000_0000_0000_0000,
{
    reveal_with_fuel(power16, 17);
}

proof fn lemma_hex_fixed_len(n: nat, k: nat)
    ensures
        hex_fixed(n, k).len() == k,
    decreases k,
{
    if k > 0 {
        lemma_hex_fixed_len(n / 16, (k - 1) as nat);
    }
}

proof fn lemma_hex_fixed_reads_back(n: nat, k: nat)
    requires
        k <= 16,
    ensures
        radix16(hex_fixed(n, k)) == Ok::<u64, IntErrorKind>((n % power16(k)) as u64),
        power16(k) <= power16(16),
        power16(k) > 0,
    decreases k,
{
    lemma_power16_grows(k, 16);
    if k == 0 {
        assert(n % 1 == 0);
    } else {
        let k1 = (k - 1) as nat;
        lemma_hex_fixed_reads_back(n / 16, k1);
        let digits = hex_fixed(n, k);
        assert(digits.drop_last() == hex_fixed(n / 16, k1));
        let d = (n % 16) as int;
        assert(digits.last() == hex_char(d));
        assert(is_hex_digit(hex_char(d)) && hex_value(hex_char(d)) == d);
        let v = (n / 16) % power16(k1);
        vstd::arithmetic::div_mod::lemma_mod_breakdown(n as int, 16, power16(k1) as int);
        assert(n % power16(k) == 16 * v + d);
        vstd::arithmetic::div_mod::lemma_mod_bound(n as int, power16(k) as int);
        lemma_power16_16();
        lemma_power16_grows(k, 16);
        assert(n % power16(k) < 0x1_0000_0000_0000_0000);
    }
}

/// A digest as a build prints it reads back as the same digest: [`hexadecimal`] and [`parse_digest`]
/// are inverse.
pub proof fn lemma_a_printed_digest_reads_back(digest: u64)
    ensures
        spec_read_digest(spec_hexadecimal(digest)) == Ok::<u64, IntErrorKind>(digest),
{
    let text = spec_hexadecimal(digest);
    let digits = hex_fixed(digest as nat, 16);
    lemma_hex_fixed_len(digest as nat, 16);
    lemma_hex_fixed_reads_back(digest as nat, 16);
    lemma_power16_16();
    vstd::arithmetic::div_mod::lemma_small_mod(digest as nat, power16(16));
    assert(digest_digits_from(text) == 2);
    assert(text.subrange(2, text.len() as int) =~= digits);
    lemma_hex_fixed_first(digest as nat, 16);
    assert(is_hex_digit(digits[0]));
}

proof fn lemma_hex_fixed_first(n: nat, k: nat)
    requires
        k >= 1,
    ensures
        hex_fixed(n, k).len() == k,
        is_hex_digit(hex_fixed(n, k)[0]),
    decreases k,
{
    lemma_hex_fixed_len(n, k);
    if k == 1 {
        assert(hex_fixed(n / 16, 0).len() == 0);
        let d = (n % 16) as int;
        assert(hex_fixed(n, k)[0] == hex_char(d));
    } else {
        lemma_hex_fixed_first(n / 16, (k - 1) as nat);
        assert(hex_fixed(n, k)[0] == hex_fixed(n / 16, (k - 1) as nat)[0]);
    }
}

} // verus!
