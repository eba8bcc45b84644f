use vstd::prelude::*;
use vstd::string::*;
use vstd::utf8::is_ascii_chars;

verus! {

/// The character of a decimal digit `d` (`0 <= d < 10`).
pub open spec fn digit_char(d: int) -> char {
    if d == 0 { '0' }
    else if d == 1 { '1' }
    else if d == 2 { '2' }
    else if d == 3 { '3' }
    else if d == 4 { '4' }
    else if d == 5 { '5' }
    else if d == 6 { '6' }
    else if d == 7 { '7' }
    else if d == 8 { '8' }
    else { '9' }
}

/// The value of a decimal digit character; `None` for any other character.
pub open spec fn digit_value(c: char) -> Option<int> {
    if c == '0' { Some(0) }
    else if c == '1' { Some(1) }
    else if c == '2' { Some(2) }
    else if c == '3' { Some(3) }
    else if c == '4' { Some(4) }
    else if c == '5' { Some(5) }
    else if c == '6' { Some(6) }
    else if c == '7' { Some(7) }
    else if c == '8' { Some(8) }
    else if c == '9' { Some(9) }
    else { None }
}

/// The shortest decimal representation of `n`, most significant digit first.
pub open spec fn decimal_digits(n: nat) -> Seq<char>
    decreases n,
{
    if n < 10 {
        seq![digit_char(n as int)]
    } else {
        decimal_digits(n / 10).push(digit_char(n as int % 10))
    }
}

/// The number that a string of decimal digits denotes; `None` if the string
/// is empty or holds a character that is not a digit.
pub open spec fn decimal_value(s: Seq<char>) -> Option<nat>
    decreases s.len(),
{
    if s.len() == 0 {
        None
    } else {
        let last = digit_value(s.last());
        if last is None {
            None
        } else if s.len() == 1 {
            Some(last->0 as nat)
        } else {
            match decimal_value(s.drop_last()) {
                Some(v) => Some((v * 10 + last->0) as nat),
                None => None,
            }
        }
    }
}

proof fn lemma_digit_round_trip(d: int)
    requires
        0 <= d < 10,
    ensures
        digit_value(digit_char(d)) == Some(d),
{
}

/// Reading back the decimal text of a number gives the number itself.
pub proof fn lemma_decimal_round_trip(n: nat)
    ensures
        decimal_value(decimal_digits(n)) == Some(n),
    decreases n,
{
    if n < 10 {
        lemma_digit_round_trip(n as int);
    } else {
        lemma_decimal_round_trip(n / 10);
        lemma_digit_round_trip(n as int % 10);
        let s = decimal_digits(n);
        assert(s.drop_last() =~= decimal_digits(n / 10));
        lemma_decimal_nonempty(n / 10);
    }
}

proof fn lemma_decimal_nonempty(n: nat)
    ensures
        decimal_digits(n).len() >= 1,
    decreases n,
{
    if n >= 10 {
        lemma_decimal_nonempty(n / 10);
    }
}

fn digit_str(d: u64) -> (r: &'static str)
    requires
        d < 10,
    ensures
        r@ == seq![digit_char(d as int)],
{
    if d == 0 {
        proof { reveal_strlit("0"); }
        "0"
    } else if d == 1 {
        proof { reveal_strlit("1"); }
        "1"
    } else if d == 2 {
        proof { reveal_strlit("2"); }
        "2"
    } else if d == 3 {
        proof { reveal_strlit("3"); }
        "3"
    } else if d == 4 {
        proof { reveal_strlit("4"); }
        "4"
    } else if d == 5 {
        proof { reveal_strlit("5"); }
        "5"
    } else if d == 6 {
        proof { reveal_strlit("6"); }
        "6"
    } else if d == 7 {
        proof { reveal_strlit("7"); }
        "7"
    } else if d == 8 {
        proof { reveal_strlit("8"); }
        "8"
    } else {
        proof { reveal_strlit("9"); }
        "9"
    }
}

/// Writes `n` in decimal, as JSON needs a 64-bit time to be written: inside a
/// string, so that no reader loses precision.
pub fn decimal_string(n: u64) -> (r: String)
    ensures
        r@ == decimal_digits(n as nat),
    decreases n,
{
    if n < 10 {
        let mut s = String::new();
        s.append(digit_str(n));
        s
    } else {
        let mut s = decimal_string(n / 10);
        s.append(digit_str(n % 10));
        s
    }
}

/// The digits of a time's text: all of it, or what follows one leading `+`.
pub open spec fn time_digits(s: Seq<char>) -> Seq<char> {
    if s.len() > 0 && s[0] == '+' { s.drop_first() } else { s }
}

/// The time that a decimal string denotes, with an optional leading `+`,
/// where it fits in `u64`.
pub open spec fn decoded_time(s: Seq<char>) -> Option<u64> {
    match decimal_value(time_digits(s)) {
        Some(v) => if v <= u64::MAX { Some(v as u64) } else { None },
        None => None,
    }
}

proof fn lemma_value_needs_digits(s: Seq<char>, i: int)
    requires
        decimal_value(s) is Some,
        0 <= i < s.len(),
    ensures
        digit_value(s[i]) is Some,
    decreases s.len(),
{
    if i < s.len() - 1 {
        lemma_value_needs_digits(s.drop_last(), i);
    }
}

proof fn lemma_value_grows(s: Seq<char>, k: int)
    requires
        1 <= k <= s.len(),
        decimal_value(s) is Some,
    ensures
        decimal_value(s.take(k)) is Some,
        decimal_value(s.take(k))->0 <= decimal_value(s)->0,
    decreases s.len(),
{
    if k < s.len() {
        assert(s.drop_last().take(k) =~= s.take(k));
        lemma_value_grows(s.drop_last(), k);
    } else {
        assert(s.take(k) =~= s);
    }
}

/// Reading back the decimal text of a time with `parse_decimal` gives the
/// time itself.
pub proof fn lemma_time_round_trip(t: u64)
    ensures
        decoded_time(decimal_digits(t as nat)) == Some(t),
{
    lemma_decimal_round_trip(t as nat);
    lemma_decimal_nonempty(t as nat);
    lemma_value_needs_digits(decimal_digits(t as nat), 0);
}

/// Reads a string of decimal digits, after an optional `+`, as a time;
/// `None` where there are no digits, anything but digits follows, or the
/// number exceeds what `u64` holds.
pub fn parse_decimal(s: &str) -> (r: Option<u64>)
    ensures
        r == decoded_time(s@),
{
    broadcast use vstd::string::is_ascii_spec_bytes;
    if !s.is_ascii() {
        proof {
            let digits = time_digits(s@);
            if decimal_value(digits) is Some {
                let i = choose|i: int| 0 <= i < s@.len() && !('\0' <= #[trigger] s@[i] <= '\u{7f}');
                if s@.len() > 0 && s@[0] == '+' {
                    lemma_value_needs_digits(digits, i - 1);
                } else {
                    lemma_value_needs_digits(digits, i);
                }
            }
        }
        return None;
    }
    let b = s.as_bytes();
    assert(b@.len() == s@.len());
    let start: usize = if b.len() > 0 && b[0] == 43 { 1 } else { 0 };
    assert(start == 1 <==> (s@.len() > 0 && s@[0] == '+'));
    let ghost digits = s@.subrange(start as int, s@.len() as int);
    assert(digits =~= time_digits(s@));
    if b.len() == start {
        return None;
    }
    let mut v: u64 = 0;
    let mut i: usize = start;
    while i < b.len()
        invariant
            b@.len() == s@.len(),
            forall|k: int| 0 <= k < s@.len() ==> b@[k] == s@[k] as u8,
            is_ascii_chars(s@),
            start <= i <= b@.len(),
            digits == s@.subrange(start as int, s@.len() as int),
            digits == time_digits(s@),
            i == start ==> v == 0,
            i > start ==> decimal_value(digits.take(i - start)) == Some(v as nat),
        decreases b@.len() - i,
    {
        let c = b[i];
        assert(s@[i as int] <= '\u{7f}');
        assert(digits[i - start] == s@[i as int]);
        if c < 48 || c > 57 {
            proof {
                if decimal_value(digits) is Some {
                    lemma_value_needs_digits(digits, i - start);
                }
            }
            return None;
        }
        let d = (c - 48) as u64;
        assert(digit_value(s@[i as int]) == Some(d as int));
        let ghost t = digits.take(i + 1 - start);
        proof {
            assert(t.drop_last() =~= digits.take(i - start));
            assert(t.last() == s@[i as int]);
        }
        if v > (u64::MAX - d) / 10 {
            proof {
                assert(v * 10 + d > u64::MAX) by (nonlinear_arith)
                    requires v > (u64::MAX - d) / 10, d <= 9;
                assert(decimal_value(t) == Some((v * 10 + d) as nat));
                if decimal_value(digits) is Some {
                    lemma_value_grows(digits, i + 1 - start);
                }
            }
            return None;
        }
        proof {
            assert(v * 10 + d <= u64::MAX) by (nonlinear_arith)
                requires v <= (u64::MAX - d) / 10, d <= 9;
        }
        v = v * 10 + d;
        i = i + 1;
    }
    assert(digits.take(i - start) =~= digits);
    Some(v)
}

} // verus!
