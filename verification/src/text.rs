//! Numbers as text, and text as numbers.
use vstd::prelude::*;

verus! {

/// The character of a decimal or hexadecimal digit.
pub open spec fn digit_char(d: int) -> char {
    if d < 10 {
        (0x30 + d) as char
    } else {
        (0x57 + d) as char
    }
}

/// The digits of `n` to the base `base`, most significant first, without leading zeros.
pub open spec fn digits(n: nat, base: nat) -> Seq<char>
    decreases n,
{
    if base < 2 || n < base {
        seq![digit_char(n as int)]
    } else {
        proof {
            assert(n / base < n) by (nonlinear_arith)
                requires
                    n >= base,
                    base >= 2,
            ;
        }
        digits(n / base, base).push(digit_char((n % base) as int))
    }
}

/// `n` in decimal notation.
pub open spec fn decimal(n: nat) -> Seq<char> {
    digits(n, 10)
}

/// `n` in decimal notation, with a minus sign where it is negative.
pub open spec fn signed_decimal(n: int) -> Seq<char> {
    if n < 0 {
        "-"@ + decimal((-n) as nat)
    } else {
        decimal(n as nat)
    }
}

/// `n` in hexadecimal notation, with its prefix.
pub open spec fn prefixed_hex(n: nat) -> Seq<char> {
    "0x"@ + digits(n, 16)
}

/// `true` or `false`.
pub open spec fn truth(b: bool) -> Seq<char> {
    if b {
        "true"@
    } else {
        "false"@
    }
}

/// The characters with the Unicode property `White_Space`.
pub open spec fn white_space(c: char) -> bool {
    ||| 0x9 <= c as u32 <= 0xd
    ||| c as u32 == 0x20
    ||| c as u32 == 0x85
    ||| c as u32 == 0xa0
    ||| c as u32 == 0x1680
    ||| 0x2000 <= c as u32 <= 0x200a
    ||| c as u32 == 0x2028
    ||| c as u32 == 0x2029
    ||| c as u32 == 0x202f
    ||| c as u32 == 0x205f
    ||| c as u32 == 0x3000
}

/// `s` without the white space that it begins with.
pub open spec fn trimmed_start(s: Seq<char>) -> Seq<char>
    decreases s.len(),
{
    if s.len() > 0 && white_space(s[0]) {
        trimmed_start(s.subrange(1, s.len() as int))
    } else {
        s
    }
}

/// `s` without the white space that it ends with.
pub open spec fn trimmed_end(s: Seq<char>) -> Seq<char>
    decreases s.len(),
{
    if s.len() > 0 && white_space(s.last()) {
        trimmed_end(s.drop_last())
    } else {
        s
    }
}

/// `s` without the white space around it.
pub open spec fn trimmed(s: Seq<char>) -> Seq<char> {
    trimmed_end(trimmed_start(s))
}

/// `c` is one of the ten decimal digits.
pub open spec fn is_digit(c: char) -> bool {
    0x30 <= c as u32 <= 0x39
}

/// The number that a string of decimal digits stands for.
pub open spec fn decimal_value(s: Seq<char>) -> nat
    decreases s.len(),
{
    if s.len() == 0 {
        0
    } else {
        (decimal_value(s.drop_last()) * 10 + (s.last() as u32 - 0x30)) as nat
    }
}

/// The number that a string of digits stands for, where there is at least one digit and the
/// number fits in 32 bits.
pub open spec fn plain_number(s: Seq<char>) -> Option<u32> {
    if s.len() > 0 && (forall|i: int| 0 <= i < s.len() ==> is_digit(#[trigger] s[i]))
        && decimal_value(s) <= u32::MAX {
        Some(decimal_value(s) as u32)
    } else {
        None
    }
}

/// The number that `s` stands for: digits, with at most one plus sign before them.
pub open spec fn number(s: Seq<char>) -> Option<u32> {
    if s.len() > 0 && s[0] == '+' {
        plain_number(s.subrange(1, s.len() as int))
    } else {
        plain_number(s)
    }
}

/// The string with one digit in it.
fn digit(d: u8) -> (s: &'static str)
    requires
        d < 16,
    ensures
        s@ == seq![digit_char(d as int)],
{
    proof {
        reveal_strlit("0");
        reveal_strlit("1");
        reveal_strlit("2");
        reveal_strlit("3");
        reveal_strlit("4");
        reveal_strlit("5");
        reveal_strlit("6");
        reveal_strlit("7");
        reveal_strlit("8");
        reveal_strlit("9");
        reveal_strlit("a");
        reveal_strlit("b");
        reveal_strlit("c");
        reveal_strlit("d");
        reveal_strlit("e");
        reveal_strlit("f");
    }
    let s = match d {
        0 => "0",
        1 => "1",
        2 => "2",
        3 => "3",
        4 => "4",
        5 => "5",
        6 => "6",
        7 => "7",
        8 => "8",
        9 => "9",
        10 => "a",
        11 => "b",
        12 => "c",
        13 => "d",
        14 => "e",
        _ => "f",
    };
    assert(s@ =~= seq![digit_char(d as int)]);
    s
}

/// Appends the digits of `n` to the base `base`.
pub fn push_digits(out: &mut String, n: u64, base: u64)
    requires
        2 <= base <= 16,
    ensures
        final(out)@ == old(out)@ + digits(n as nat, base as nat),
    decreases n,
{
    if n < base {
        out.append(digit(n as u8));
    } else {
        assert(n / base < n) by (nonlinear_arith)
            requires
                n >= base,
                base >= 2,
        ;
        assert(n % base < base) by (nonlinear_arith)
            requires
                base >= 2,
        ;
        push_digits(out, n / base, base);
        out.append(digit((n % base) as u8));
        assert(out@ =~= old(out)@ + digits(n as nat, base as nat));
    }
}

/// Appends `n` in decimal notation.
pub fn push_decimal(out: &mut String, n: u64)
    ensures
        final(out)@ == old(out)@ + decimal(n as nat),
{
    push_digits(out, n, 10);
}

/// Appends `n` in decimal notation, with its sign.
pub fn push_signed(out: &mut String, n: i32)
    ensures
        final(out)@ == old(out)@ + signed_decimal(n as int),
{
    if n < 0 {
        out.append("-");
        push_digits(out, (-(n as i64)) as u64, 10);
        assert(out@ =~= old(out)@ + signed_decimal(n as int));
    } else {
        push_digits(out, n as u64, 10);
    }
}

/// Appends `n` in hexadecimal notation.
pub fn push_hex(out: &mut String, n: u64)
    ensures
        final(out)@ == old(out)@ + prefixed_hex(n as nat),
{
    out.append("0x");
    push_digits(out, n, 16);
    assert(out@ =~= old(out)@ + prefixed_hex(n as nat));
}

/// Appends `true` or `false`.
pub fn push_truth(out: &mut String, b: bool)
    ensures
        final(out)@ == old(out)@ + truth(b),
{
    if b {
        out.append("true");
    } else {
        out.append("false");
    }
}

/// Whether `c` is white space.
pub fn is_white_space(c: char) -> (yes: bool)
    ensures
        yes == white_space(c),
{
    let c: u32 = c as u32;
    (0x9 <= c && c <= 0xd) || c == 0x20 || c == 0x85 || c == 0xa0 || c == 0x1680 || (0x2000 <= c
        && c <= 0x200a) || c == 0x2028 || c == 0x2029 || c == 0x202f || c == 0x205f || c == 0x3000
}

/// The part of `s` that is left without the white space around it.
pub fn trim<'a>(s: &'a str) -> (part: &'a str)
    ensures
        part@ == trimmed(s@),
{
    let n: usize = s.unicode_len();
    let mut from: usize = 0;
    assert(s@.subrange(0, n as int) =~= s@);
    while from < n && is_white_space(s.get_char(from))
        invariant
            from <= n == s@.len(),
            trimmed_start(s@) == trimmed_start(s@.subrange(from as int, n as int)),
        decreases n - from,
    {
        assert(s@.subrange(from as int, n as int).subrange(1, n - from) =~= s@.subrange(
            from + 1,
            n as int,
        ));
        from += 1;
    }
    assert(trimmed_start(s@) == s@.subrange(from as int, n as int));
    let mut to: usize = n;
    while from < to && is_white_space(s.get_char(to - 1))
        invariant
            from <= to <= n == s@.len(),
            trimmed(s@) == trimmed_end(s@.subrange(from as int, to as int)),
        decreases to - from,
    {
        assert(s@.subrange(from as int, to as int).drop_last() =~= s@.subrange(
            from as int,
            to - 1,
        ));
        to -= 1;
    }
    s.substring_char(from, to)
}

/// Reads `s` as a number.
pub fn parse_number(s: &str) -> (n: Option<u32>)
    ensures
        n == number(s@),
{
    let n: usize = s.unicode_len();
    let mut i: usize = 0;
    if n > 0 && s.get_char(0) == '+' {
        i = 1;
    }
    let ghost body = s@.subrange(i as int, n as int);
    let ghost start = i;
    assert(i == 0 ==> body =~= s@);
    if i == n {
        return None;
    }
    let mut value: u64 = 0;
    let mut too_large: bool = false;
    assert(body.subrange(0, 0) =~= Seq::empty());
    while i < n
        invariant
            start <= i <= n == s@.len(),
            body == s@.subrange(start as int, n as int),
            forall|k: int| 0 <= k < i - start ==> is_digit(#[trigger] body[k]),
            number(s@) == plain_number(body),
            too_large ==> decimal_value(body.subrange(0, i - start)) > u32::MAX,
            !too_large ==> value == decimal_value(body.subrange(0, i - start)) && value
                <= u32::MAX,
        decreases n - i,
    {
        let c: char = s.get_char(i);
        if (c as u32) < 0x30 || (c as u32) > 0x39 {
            assert(!is_digit(body[i - start]));
            return None;
        }
        proof {
            let part = body.subrange(0, i + 1 - start);
            assert(part.drop_last() =~= body.subrange(0, i - start));
            assert(part.last() == c);
        }
        if !too_large {
            value = value * 10 + ((c as u32) - 0x30) as u64;
            if value > 0xffff_ffff {
                too_large = true;
            }
        }
        i += 1;
    }
    assert(body.subrange(0, n - start) =~= body);
    if too_large {
        None
    } else {
        Some(value as u32)
    }
}

/// The digits of a number are digits, and stand for that number.
pub proof fn lemma_decimal_digits(n: nat)
    ensures
        decimal(n).len() > 0,
        forall|i: int| 0 <= i < decimal(n).len() ==> is_digit(#[trigger] decimal(n)[i]),
        decimal_value(decimal(n)) == n,
    decreases n,
{
    reveal_with_fuel(decimal_value, 2);
    if n >= 10 {
        lemma_decimal_digits(n / 10);
        assert(decimal(n).drop_last() =~= decimal(n / 10));
    } else {
        assert(decimal(n).drop_last() =~= Seq::empty());
    }
}

/// A number that is written down in decimal notation is read back as it was.
pub proof fn numbers_read_back(n: u32)
    ensures
        number(trimmed(decimal(n as nat))) == Some(n),
{
    let s = decimal(n as nat);
    lemma_decimal_digits(n as nat);
    assert(is_digit(s[0]));
    assert(is_digit(s[s.len() - 1]));
    assert(trimmed_start(s) == s);
    assert(trimmed(s) == s);
}

/// What a digit stands for, in decimal or hexadecimal notation.
pub open spec fn digit_value(c: char) -> int {
    if 'a' as u32 <= c as u32 <= 'f' as u32 {
        c as u32 - 'a' as u32 + 10
    } else {
        c as u32 - '0' as u32
    }
}

/// `c` is a digit of a notation with so many digits.
pub open spec fn is_digit_of(c: char, base: nat) -> bool {
    ('0' as u32 <= c as u32 <= '9' as u32 || 'a' as u32 <= c as u32 <= 'f' as u32) && digit_value(c)
        < base
}

/// A string of decimal digits, at least one, that stand for this number.
pub open spec fn stands_for(body: Seq<char>, n: int) -> bool {
    &&& body.len() > 0
    &&& value_in(body, 10) == n
    &&& forall|i: int| 0 <= i < body.len() ==> is_digit_of(#[trigger] body[i], 10)
}

/// What a string of digits stands for: each digit counts as often as the base to the number of
/// digits after it.
pub open spec fn value_in(s: Seq<char>, base: nat) -> int
    decreases s.len(),
{
    if s.len() == 0 {
        0
    } else {
        digit_value(s[0]) * vstd::arithmetic::power::pow(base as int, (s.len() - 1) as nat)
            + value_in(s.skip(1), base)
    }
}

/// What a string of digits with one more digit at its end stands for.
proof fn lemma_value_push(s: Seq<char>, c: char, base: nat)
    ensures
        value_in(s.push(c), base) == value_in(s, base) * base + digit_value(c),
    decreases s.len(),
{
    let all = s.push(c);
    let b = base as int;
    assert(all[0] == if s.len() == 0 {
        c
    } else {
        s[0]
    });
    if s.len() == 0 {
        vstd::arithmetic::power::lemma_pow0(b);
        assert(all.skip(1) =~= Seq::empty());
        assert(value_in(all.skip(1), base) == 0);
    } else {
        assert(all.skip(1) =~= s.skip(1).push(c));
        lemma_value_push(s.skip(1), c, base);
        let n = (s.len() - 1) as nat;
        let d = digit_value(s[0]);
        let p = vstd::arithmetic::power::pow(b, n);
        let rest = value_in(s.skip(1), base);
        reveal(vstd::arithmetic::power::pow);
        assert(vstd::arithmetic::power::pow(b, n + 1) == b * p);
        assert(d * (b * p) + (rest * b + digit_value(c)) == (d * p + rest) * b + digit_value(c))
            by (nonlinear_arith);
    }
}

/// The notation of a number stands for it, digit by digit, and does not begin with a zero unless
/// the number is zero.
pub proof fn notations_stand_for_their_numbers(n: nat, base: nat)
    requires
        2 <= base <= 16,
    ensures
        value_in(digits(n, base), base) == n,
        digits(n, base).len() > 0,
        digits(n, base)[0] == '0' ==> n == 0,
        n == 0 ==> digits(n, base).len() == 1,
        forall|i: int|
            0 <= i < digits(n, base).len() ==> is_digit_of(#[trigger] digits(n, base)[i], base),
    decreases n,
{
    let s = digits(n, base);
    if n < base {
        assert(s =~= Seq::empty().push(digit_char(n as int)));
        lemma_value_push(Seq::empty(), digit_char(n as int), base);
        assert(value_in(Seq::empty(), base) == 0);
        assert(0 * base == 0);
    } else {
        let low = (n % base) as int;
        assert(n / base < n && n / base > 0 && low < base && n == (n / base) * base + low)
            by (nonlinear_arith)
            requires
                n >= base,
                base >= 2,
                low == n % base,
        ;
        notations_stand_for_their_numbers(n / base, base);
        let before = digits(n / base, base);
        lemma_value_push(before, digit_char(low), base);
        assert forall|i: int| 0 <= i < s.len() implies is_digit_of(#[trigger] s[i], base) by {
            if i < before.len() {
                assert(s[i] == before[i]);
            }
        }
        assert(s[0] == before[0]);
    }
}

/// The value of a string of decimal digits is what it stands for in decimal notation.
pub proof fn decimal_values_are_positional(s: Seq<char>)
    requires
        forall|i: int| 0 <= i < s.len() ==> is_digit_of(#[trigger] s[i], 10),
    ensures
        decimal_value(s) == value_in(s, 10),
    decreases s.len(),
{
    if s.len() > 0 {
        let before = s.drop_last();
        assert forall|i: int| 0 <= i < before.len() implies is_digit_of(
            #[trigger] before[i],
            10,
        ) by {
            assert(before[i] == s[i]);
        }
        decimal_values_are_positional(before);
        lemma_value_push(before, s.last(), 10);
        assert(before.push(s.last()) =~= s);
        assert(is_digit_of(s[s.len() - 1], 10));
    }
}

/// A text is a number exactly where it is decimal digits, at least one, after a plus sign or
/// none, that stand for a number of at most 32 bits; and it is that number.
pub proof fn numbers_are_digits(s: Seq<char>, n: u32)
    ensures
        number(s) == Some(n) <==> exists|body: Seq<char>| #[trigger]
            stands_for(body, n as int) && (s == body || s == seq!['+'] + body),
{
    if number(s) == Some(n) {
        let body = if s.len() > 0 && s[0] == '+' {
            s.subrange(1, s.len() as int)
        } else {
            s
        };
        if s.len() > 0 && s[0] == '+' {
            assert(s =~= seq!['+'] + body);
        }
        assert(plain_number(body) == Some(n));
        assert forall|i: int| 0 <= i < body.len() implies is_digit_of(#[trigger] body[i], 10) by {
            assert(is_digit(body[i]));
        }
        decimal_values_are_positional(body);
        assert(stands_for(body, n as int));
    }
    if exists|body: Seq<char>| #[trigger]
        stands_for(body, n as int) && (s == body || s == seq!['+'] + body) {
        let body = choose|body: Seq<char>| #[trigger]
            stands_for(body, n as int) && (s == body || s == seq!['+'] + body);
        decimal_values_are_positional(body);
        assert forall|i: int| 0 <= i < body.len() implies is_digit(#[trigger] body[i]) by {
            assert(is_digit_of(body[i], 10));
        }
        assert(plain_number(body) == Some(n));
        if s == seq!['+'] + body {
            assert(s[0] == '+');
            assert(s.subrange(1, s.len() as int) =~= body);
        } else {
            assert(is_digit(body[0]));
        }
    }
}

/// The white space characters, one by one.
pub proof fn white_space_is_these(c: char)
    ensures
        white_space(c) <==> c == '\t' || c == '\n' || c == '\u{b}' || c == '\u{c}' || c == '\r' || c
            == ' ' || c == '\u{85}' || c == '\u{a0}' || c == '\u{1680}' || c == '\u{2000}' || c
            == '\u{2001}' || c == '\u{2002}' || c == '\u{2003}' || c == '\u{2004}' || c
            == '\u{2005}' || c == '\u{2006}' || c == '\u{2007}' || c == '\u{2008}' || c == '\u{2009}' || c
            == '\u{200a}' || c == '\u{2028}' || c == '\u{2029}' || c == '\u{202f}' || c
            == '\u{205f}' || c == '\u{3000}',
{
}

/// All of it is white space.
pub open spec fn blank(s: Seq<char>) -> bool {
    forall|i: int| 0 <= i < s.len() ==> white_space(#[trigger] s[i])
}

proof fn lemma_trimmed_start(a: Seq<char>, rest: Seq<char>)
    requires
        blank(a),
        rest.len() > 0 ==> !white_space(rest[0]),
    ensures
        trimmed_start(a + rest) == rest,
    decreases a.len(),
{
    if a.len() == 0 {
        assert(a + rest =~= rest);
    } else {
        let all = a + rest;
        assert(all[0] == a[0]);
        assert(white_space(a[0]));
        assert(all.subrange(1, all.len() as int) =~= a.skip(1) + rest);
        assert forall|i: int| 0 <= i < a.skip(1).len() implies white_space(
            #[trigger] a.skip(1)[i],
        ) by {
            assert(a.skip(1)[i] == a[i + 1]);
        }
        lemma_trimmed_start(a.skip(1), rest);
    }
}

proof fn lemma_trimmed_end(core: Seq<char>, b: Seq<char>)
    requires
        blank(b),
        core.len() > 0 ==> !white_space(core.last()),
    ensures
        trimmed_end(core + b) == core,
    decreases b.len(),
{
    if b.len() == 0 {
        assert(core + b =~= core);
    } else {
        let all = core + b;
        assert(all.last() == b[b.len() - 1]);
        assert(white_space(b[b.len() - 1]));
        assert(all.drop_last() =~= core + b.drop_last());
        assert forall|i: int| 0 <= i < b.drop_last().len() implies white_space(
            #[trigger] b.drop_last()[i],
        ) by {
            assert(b.drop_last()[i] == b[i]);
        }
        lemma_trimmed_end(core, b.drop_last());
    }
}

/// Trimming takes away all white space around a text that begins and ends with something else,
/// and nothing more.
pub proof fn trimming_takes_the_white_space_around(a: Seq<char>, core: Seq<char>, b: Seq<char>)
    requires
        blank(a),
        blank(b),
        core.len() > 0 ==> !white_space(core[0]) && !white_space(core.last()),
    ensures
        trimmed(a + core + b) == core,
{
    if core.len() == 0 {
        let all = a + b;
        assert(a + core + b =~= all + core);
        assert forall|i: int| 0 <= i < all.len() implies white_space(#[trigger] all[i]) by {
            if i < a.len() {
                assert(all[i] == a[i]);
            } else {
                assert(all[i] == b[i - a.len()]);
            }
        }
        lemma_trimmed_start(all, core);
        assert(trimmed_end(core) == core);
    } else {
        assert(a + core + b =~= a + (core + b));
        assert((core + b)[0] == core[0]);
        lemma_trimmed_start(a, core + b);
        lemma_trimmed_end(core, b);
    }
}

/// A signed number has a minus sign where it is below zero, and the notation of its distance from
/// zero after that.
pub proof fn signs_are_written_before(n: int)
    ensures
        n >= 0 ==> signed_decimal(n) == digits(n as nat, 10),
        n < 0 ==> signed_decimal(n) == seq!['-'] + digits((-n) as nat, 10),
        n >= 0 ==> prefixed_hex(n as nat) == seq!['0', 'x'] + digits(n as nat, 16),
{
    reveal_strlit("-");
    reveal_strlit("0x");
    assert("-"@ =~= seq!['-']);
    assert("0x"@ =~= seq!['0', 'x']);
}

/// What is so and what is not have their names.
pub proof fn truths_have_names()
    ensures
        truth(true) == seq!['t', 'r', 'u', 'e'],
        truth(false) == seq!['f', 'a', 'l', 's', 'e'],
{
    reveal_strlit("true");
    reveal_strlit("false");
    assert("true"@ =~= seq!['t', 'r', 'u', 'e']);
    assert("false"@ =~= seq!['f', 'a', 'l', 's', 'e']);
}

} // verus!
