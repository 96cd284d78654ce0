//! Text primitives shared by the rest of the library: string building,
//! character access, and decimal formatting and parsing of integers.

use vstd::prelude::*;

verus! {

broadcast use vstd::string::group_string_axioms;

// ── Trusted std primitives ─────────────────────────────────────

/// `String::push`: appends one character to the string.
#[verifier::external_body]
pub(crate) fn push_char(s: &mut String, c: char)
    ensures
        final(s)@ == old(s)@.push(c),
{
    s.push(c);
}

/// `String::push_str`: appends the characters of `t` to the string.
#[verifier::external_body]
pub(crate) fn push_str(s: &mut String, t: &str)
    ensures
        final(s)@ == old(s)@ + t@,
{
    s.push_str(t);
}

/// `<str as PartialEq>::eq`: two string slices are equal exactly when
/// they hold the same characters.
#[verifier::external_body]
pub(crate) fn str_eq(a: &str, b: &str) -> (r: bool)
    ensures
        r == (a@ == b@),
{
    a == b
}

/// A fresh owned copy of a string slice.
pub fn to_owned_string(s: &str) -> (r: String)
    ensures
        r@ == s@,
{
    s.to_string()
}

/// The characters of a string slice, in order.
pub fn chars_of(s: &str) -> (v: Vec<char>)
    ensures
        v@ == s@,
{
    let mut v: Vec<char> = Vec::new();
    for c in it: s.chars()
        invariant
            v@ == it.seq().take(it.index()),
            it.seq() == s@,
    {
        v.push(c);
    }
    v
}

/// Builds an owned string from a sequence of characters.
pub fn string_from_chars(cs: &[char]) -> (r: String)
    ensures
        r@ == cs@,
{
    let mut r = String::new();
    let mut i: usize = 0;
    while i < cs.len()
        invariant
            i <= cs.len(),
            r@ == cs@.take(i as int),
        decreases cs.len() - i,
    {
        push_char(&mut r, cs[i]);
        proof { assert(cs@.take(i + 1) == cs@.take(i as int).push(cs@[i as int])); }
        i += 1;
    }
    proof { assert(cs@.take(cs.len() as int) == cs@); }
    r
}

// ── Decimal numerals ───────────────────────────────────────────

/// The decimal digit character for `d` (0 ≤ d < 10).
pub open spec fn digit_char(d: int) -> char {
    if d == 0 { '0' } else if d == 1 { '1' } else if d == 2 { '2' } else if d == 3 { '3' }
    else if d == 4 { '4' } else if d == 5 { '5' } else if d == 6 { '6' } else if d == 7 { '7' }
    else if d == 8 { '8' } else { '9' }
}

/// The digit character for `d`.
pub fn digit_to_char(d: u64) -> (c: char)
    requires
        d < 10,
    ensures
        c == digit_char(d as int),
{
    if d == 0 { '0' } else if d == 1 { '1' } else if d == 2 { '2' } else if d == 3 { '3' }
    else if d == 4 { '4' } else if d == 5 { '5' } else if d == 6 { '6' } else if d == 7 { '7' }
    else if d == 8 { '8' } else { '9' }
}

/// Is `c` one of the characters '0'..'9'?
pub open spec fn is_digit(c: char) -> bool {
    '0' <= c && c <= '9'
}

/// The numeric value of a digit character.
pub open spec fn digit_value(c: char) -> int {
    c as int - 48
}

/// The shortest decimal numeral of a natural number (no leading zeros).
pub open spec fn dec_nat(n: nat) -> Seq<char>
    decreases n,
{
    if n < 10 {
        seq![digit_char(n as int)]
    } else {
        dec_nat(n / 10).push(digit_char((n % 10) as int))
    }
}

/// The decimal numeral of an integer: a '-' before the numeral of the
/// magnitude when negative.
pub open spec fn dec_int(i: int) -> Seq<char> {
    if i < 0 {
        seq!['-'] + dec_nat((-i) as nat)
    } else {
        dec_nat(i as nat)
    }
}

/// Are all characters of `s` decimal digits?
pub open spec fn all_digits(s: Seq<char>) -> bool {
    forall|k: int| 0 <= k < s.len() ==> is_digit(#[trigger] s[k])
}

/// The value of a string of digits, read in base ten.
pub open spec fn digits_value(s: Seq<char>) -> nat
    decreases s.len(),
{
    if s.len() == 0 {
        0
    } else {
        (digits_value(s.drop_last()) * 10 + digit_value(s.last())) as nat
    }
}

/// The part of a numeral after its optional sign.
pub open spec fn numeral_body(s: Seq<char>) -> Seq<char> {
    if s.len() > 0 && (s[0] == '-' || s[0] == '+') {
        s.skip(1)
    } else {
        s
    }
}

/// The signed value that a numeral denotes, ignoring the range of `i64`.
pub open spec fn numeral_value(s: Seq<char>) -> int {
    if s.len() > 0 && s[0] == '-' {
        -digits_value(numeral_body(s))
    } else {
        digits_value(numeral_body(s)) as int
    }
}

/// What Rust's `i64::from_str` accepts: an optional sign, then one or
/// more digits, denoting a value within the range of `i64`.
pub open spec fn parse_i64_spec(s: Seq<char>) -> Option<i64> {
    if numeral_body(s).len() > 0 && all_digits(numeral_body(s)) && i64::MIN <= numeral_value(s)
        <= i64::MAX {
        Some(numeral_value(s) as i64)
    } else {
        None
    }
}

pub proof fn lemma_digit_char(d: int)
    requires
        0 <= d < 10,
    ensures
        digit_value(digit_char(d)) == d,
        is_digit(digit_char(d)),
        digit_char(d) != '-',
        digit_char(d) != '+',
{
}

pub proof fn lemma_dec_nat_digits(n: nat)
    ensures
        dec_nat(n).len() > 0,
        all_digits(dec_nat(n)),
        digits_value(dec_nat(n)) == n,
        dec_nat(n).len() > 1 ==> dec_nat(n)[0] != '0',
        n < 10 <==> dec_nat(n).len() == 1,
    decreases n,
{
    lemma_digit_char((n % 10) as int);
    if n >= 10 {
        lemma_dec_nat_digits(n / 10);
        let s = dec_nat(n);
        assert(n == (n / 10) * 10 + n % 10);
        assert(s.last() == digit_char((n % 10) as int));
        assert(digits_value(s) == digits_value(s.drop_last()) * 10 + digit_value(s.last()));
        assert(s.drop_last() == dec_nat(n / 10));
        assert forall|k: int| 0 <= k < s.len() implies is_digit(#[trigger] s[k]) by {
            if k < s.len() - 1 {
                assert(s[k] == dec_nat(n / 10)[k]);
            }
        }
        assert(s[0] == dec_nat(n / 10)[0]);
        assert(digits_value(s) == n);
    } else {
        let s = dec_nat(n);
        assert(s.drop_last() =~= Seq::<char>::empty());
        assert(digits_value(s.drop_last()) == 0);
        assert(s.last() == digit_char(n as int));
        assert(digit_value(s.last()) == n);
        assert(digits_value(s) == n);
    }
}

/// Pushes the decimal numeral of `n` onto `s`.
pub fn push_decimal_u64(s: &mut String, n: u64)
    ensures
        final(s)@ == old(s)@ + dec_nat(n as nat),
    decreases n,
{
    if n >= 10 {
        push_decimal_u64(s, n / 10);
    }
    let d: u64 = n % 10;
    push_char(s, digit_to_char(d));
    proof {
        if n >= 10 {
            assert(dec_nat(n as nat) == dec_nat((n / 10) as nat).push(digit_char((n % 10) as int)));
        }
    }
    assert(final(s)@ == old(s)@ + dec_nat(n as nat));
}

/// Pushes the decimal numeral of `n` onto `s`.
pub fn push_decimal_i64(s: &mut String, n: i64)
    ensures
        final(s)@ == old(s)@ + dec_int(n as int),
{
    if n < 0 {
        push_char(s, '-');
        let m: u64 = (0i128 - n as i128) as u64;
        push_decimal_u64(s, m);
        assert(final(s)@ == old(s)@ + dec_int(n as int));
    } else {
        push_decimal_u64(s, n as u64);
    }
}

/// The decimal numeral of a signed integer.
pub fn i64_to_string(n: i64) -> (r: String)
    ensures
        r@ == dec_int(n as int),
{
    let mut s = String::new();
    push_decimal_i64(&mut s, n);
    s
}

pub proof fn lemma_digits_value_prefix(s: Seq<char>, i: int)
    requires
        0 <= i <= s.len(),
        all_digits(s),
    ensures
        digits_value(s.take(i)) <= digits_value(s),
    decreases s.len(),
{
    if i < s.len() {
        assert(s.drop_last().take(i) == s.take(i));
        assert(all_digits(s.drop_last())) by {
            assert forall|k: int| 0 <= k < s.drop_last().len() implies is_digit(#[trigger] s.drop_last()[k]) by {
                assert(s.drop_last()[k] == s[k]);
            }
        }
        lemma_digits_value_prefix(s.drop_last(), i);
        assert(is_digit(s[s.len() - 1]));
    } else {
        assert(s.take(i) == s);
    }
}

/// Rust's `i64::from_str` on a sequence of characters: an optional sign
/// followed by at least one digit, with a value that fits in `i64`.
pub fn parse_i64(s: &[char]) -> (r: Option<i64>)
    ensures
        r == parse_i64_spec(s@),
{
    let n = s.len();
    if n == 0 {
        return None;
    }
    let neg = s[0] == '-';
    let start: usize = if s[0] == '-' || s[0] == '+' { 1 } else { 0 };
    let ghost body = numeral_body(s@);
    proof { assert(body == s@.skip(start as int)); }
    if start == n {
        return None;
    }
    let mut mag: u64 = 0;
    let mut i: usize = start;
    while i < n
        invariant
            start <= i <= n,
            n == s.len(),
            body == s@.skip(start as int),
            body == numeral_body(s@),
            n > 0,
            neg == (s@[0] == '-'),
            mag as nat == digits_value(body.take(i - start)),
            all_digits(body.take(i - start)),
            mag <= 9223372036854775808u64,
        decreases n - i,
    {
        let c = s[i];
        proof {
            assert(body.take(i - start + 1).drop_last() == body.take(i - start));
            assert(body.take(i - start + 1).last() == c);
        }
        if !('0' <= c && c <= '9') {
            proof {
                assert(body[i - start] == c);
                assert(!is_digit(body[i - start]));
                assert(!all_digits(body));
                assert(parse_i64_spec(s@) is None);
            }
            return None;
        }
        let d: u64 = (c as u32 - 48) as u64;
        if mag > 922337203685477580u64 || mag * 10 + d > 9223372036854775808u64 {
            proof {
                if all_digits(body) {
                    lemma_digits_value_prefix(body, i - start + 1);
                    assert(digits_value(body.take(i - start + 1)) == mag * 10 + d);
                    assert(digits_value(body) > 9223372036854775808);
                }
                assert(parse_i64_spec(s@) is None);
            }
            return None;
        }
        mag = mag * 10 + d;
        proof {
            assert forall|k: int| 0 <= k < i - start + 1 implies is_digit(#[trigger] body.take(i - start + 1)[k]) by {
                if k < i - start {
                    assert(body.take(i - start + 1)[k] == body.take(i - start)[k]);
                }
            }
        }
        i += 1;
    }
    proof { assert(body.take(n - start) == body); }
    if neg {
        Some((0i128 - mag as i128) as i64)
    } else if mag <= 9223372036854775807u64 {
        Some(mag as i64)
    } else {
        None
    }
}

/// Round trip: every `i64` is read back from its decimal numeral.
pub proof fn lemma_parse_dec_int(n: i64)
    ensures
        parse_i64_spec(dec_int(n as int)) == Some(n),
{
    let m: nat = if n < 0 { (-n) as nat } else { n as nat };
    lemma_dec_nat_digits(m);
    let s = dec_int(n as int);
    if n < 0 {
        assert(s.skip(1) == dec_nat(m));
        assert(s[0] == '-');
    } else {
        assert(dec_nat(m)[0] != '-' && dec_nat(m)[0] != '+') by {
            assert(is_digit(dec_nat(m)[0]));
        }
    }
}


/// Splitting on ':' always yields at least one piece.
pub proof fn lemma_split_nonempty(s: Seq<char>)
    ensures
        crate::env::split_colon(s).len() >= 1,
    decreases s.len(),
{
    if s.len() > 0 {
        lemma_split_nonempty(s.drop_last());
    }
}

proof fn lemma_digit_round_trip(c: char)
    requires
        is_digit(c),
    ensures
        0 <= digit_value(c) < 10,
        digit_char(digit_value(c)) == c,
{
    let k = c as int;
    assert(48 <= k <= 57);
    if k == 48 { assert(c == '0'); } else if k == 49 { assert(c == '1'); } else if k == 50 { assert(c == '2'); }
    else if k == 51 { assert(c == '3'); } else if k == 52 { assert(c == '4'); } else if k == 53 { assert(c == '5'); }
    else if k == 54 { assert(c == '6'); } else if k == 55 { assert(c == '7'); } else if k == 56 { assert(c == '8'); }
    else { assert(c == '9'); }
}

/// A string of digits without a superfluous leading zero is the shortest
/// numeral of its value.
pub proof fn lemma_digits_canonical(d: Seq<char>)
    requires
        d.len() > 0,
        all_digits(d),
        d.len() == 1 || d[0] != '0',
    ensures
        dec_nat(digits_value(d)) == d,
        d[0] != '0' ==> digits_value(d) > 0,
        d.len() > 1 ==> digits_value(d) >= 10,
    decreases d.len(),
{
    lemma_digit_round_trip(d.last());
    if d.len() == 1 {
        assert(d.drop_last() =~= Seq::<char>::empty());
        assert(digits_value(d.drop_last()) == 0);
        assert(d.last() == d[0]);
        assert(digits_value(d) == digit_value(d[0]));
        assert(dec_nat(digits_value(d)) == seq![digit_char(digit_value(d[0]))]);
        if d[0] != '0' {
            assert(digit_value(d[0]) != 0);
        }
        assert(dec_nat(digits_value(d)) =~= d);
    } else {
        let t = d.drop_last();
        assert(t[0] == d[0]);
        assert(all_digits(t)) by {
            assert forall|k: int| 0 <= k < t.len() implies is_digit(#[trigger] t[k]) by {
                assert(t[k] == d[k]);
            }
        }
        lemma_digits_canonical(t);
        let a = digits_value(t);
        let b = digit_value(d.last());
        assert(a > 0);
        assert(digits_value(d) == a * 10 + b);
        assert((a * 10 + b) / 10 == a && (a * 10 + b) % 10 == b) by (nonlinear_arith)
            requires
                0 <= b < 10,
                a >= 0,
        ;
        assert(dec_nat(digits_value(d)) == dec_nat(a).push(digit_char(b)));
        assert(dec_nat(digits_value(d)) =~= d);
    }
}

} // verus!
