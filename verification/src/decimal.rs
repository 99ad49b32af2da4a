//! Decimal text: parsing signed integers from file names, and rendering
//! integers back to decimal strings for scripts and archive entry names.

use vstd::prelude::*;

verus! {

/// A decimal digit character.
pub open spec fn is_digit(c: char) -> bool {
    '0' as u32 <= c as u32 && c as u32 <= '9' as u32
}

/// Numeric value of a digit character.
pub open spec fn digit_val(c: char) -> nat {
    (c as u32 - '0' as u32) as nat
}

/// Every character of `s` is a decimal digit.
pub open spec fn all_digits(s: Seq<char>) -> bool {
    forall|i: int| 0 <= i < s.len() ==> is_digit(#[trigger] s[i])
}

/// Value of a digit string, most significant digit first.
pub open spec fn digits_val(s: Seq<char>) -> nat
    decreases s.len(),
{
    if s.len() == 0 {
        0
    } else {
        digits_val(s.drop_last()) * 10 + digit_val(s.last())
    }
}

/// The digits of `s` after an optional leading sign.
pub open spec fn int_str_body(s: Seq<char>) -> Seq<char> {
    if s.len() > 0 && (s[0] == '+' || s[0] == '-') {
        s.drop_first()
    } else {
        s
    }
}

/// Whether `s` carries a leading minus sign.
pub open spec fn int_str_negative(s: Seq<char>) -> bool {
    s.len() > 0 && s[0] == '-'
}

/// Shape of a decimal integer: an optional sign, then one or more digits.
pub open spec fn int_str_valid(s: Seq<char>) -> bool {
    int_str_body(s).len() > 0 && all_digits(int_str_body(s))
}

/// Signed value of a well-shaped decimal integer string.
pub open spec fn int_str_value(s: Seq<char>) -> int {
    if int_str_negative(s) {
        -(digits_val(int_str_body(s)) as int)
    } else {
        digits_val(int_str_body(s)) as int
    }
}

/// What parsing `s` as an `i64` yields: the value when the shape is right
/// and the value fits, nothing otherwise.
pub open spec fn parse_i64_spec(s: Seq<char>) -> Option<i64> {
    if int_str_valid(s) && i64::MIN <= int_str_value(s) <= i64::MAX {
        Some(int_str_value(s) as i64)
    } else {
        None
    }
}

/// A digit-string prefix never exceeds the value of the whole string.
proof fn lemma_digits_val_prefix_le(s: Seq<char>, i: int)
    requires
        0 <= i <= s.len(),
    ensures
        digits_val(s.take(i)) <= digits_val(s),
    decreases s.len(),
{
    if i < s.len() {
        assert(s.drop_last().take(i) =~= s.take(i));
        lemma_digits_val_prefix_le(s.drop_last(), i);
    } else {
        assert(s.take(i) =~= s);
    }
}

/// Parse a decimal integer as `str::parse::<i64>` does: an optional sign,
/// then one or more digits, rejected when any other character occurs or
/// the value does not fit in an `i64`.
pub fn parse_i64(s: &str) -> (r: Option<i64>)
    ensures
        r == parse_i64_spec(s@),
{
    let n: usize = s.unicode_len();
    if n == 0 {
        return None;
    }
    let first: char = s.get_char(0);
    let negative: bool = first == '-';
    let start: usize = if negative || first == '+' {
        1
    } else {
        0
    };
    if start == n {
        return None;
    }
    let ghost body: Seq<char> = int_str_body(s@);
    proof {
        assert(body =~= s@.subrange(start as int, n as int));
    }
    // Largest magnitude an `i64` of this sign can hold.
    let bound: u64 = if negative {
        9223372036854775808
    } else {
        9223372036854775807
    };
    let mut acc: u64 = 0;
    let mut i: usize = start;
    while i < n
        invariant
            start <= i <= n,
            n == s@.len(),
            body == s@.subrange(start as int, n as int),
            body == int_str_body(s@),
            int_str_negative(s@) == negative,
            all_digits(body.take(i - start)),
            acc == digits_val(body.take(i - start)),
            acc <= bound,
            bound == if negative { 9223372036854775808u64 } else { 9223372036854775807u64 },
        decreases n - i,
    {
        let c: char = s.get_char(i);
        let cv: u32 = c as u32;
        if !(48 <= cv && cv <= 57) {
            proof {
                assert(body[i - start] == s@[i as int]);
                assert(!is_digit(int_str_body(s@)[i - start]));
            }
            return None;
        }
        let d: u64 = (cv - 48) as u64;
        proof {
            assert(body.take(i + 1 - start).drop_last() =~= body.take(i - start));
            assert(body.take(i + 1 - start).last() == s@[i as int]);
        }
        if acc > bound / 10 || (acc == bound / 10 && d > bound % 10) {
            proof {
                assert(digits_val(body.take(i + 1 - start)) > bound);
                lemma_digits_val_prefix_le(body, i + 1 - start);
            }
            return None;
        }
        acc = acc * 10 + d;
        i = i + 1;
    }
    proof {
        assert(body.take(n - start) =~= body);
    }
    if negative {
        if acc == 9223372036854775808 {
            Some(i64::MIN)
        } else {
            Some(-(acc as i64))
        }
    } else {
        Some(acc as i64)
    }
}

/// The character of one decimal digit.
pub open spec fn dec_digit_char(d: nat) -> char {
    if d == 0 {
        '0'
    } else if d == 1 {
        '1'
    } else if d == 2 {
        '2'
    } else if d == 3 {
        '3'
    } else if d == 4 {
        '4'
    } else if d == 5 {
        '5'
    } else if d == 6 {
        '6'
    } else if d == 7 {
        '7'
    } else if d == 8 {
        '8'
    } else {
        '9'
    }
}

/// Decimal rendering of a natural number: no sign, no leading zeros,
/// a single `0` for zero.
pub open spec fn dec_str(n: nat) -> Seq<char>
    decreases n,
{
    if n < 10 {
        seq![dec_digit_char(n)]
    } else {
        dec_str(n / 10).push(dec_digit_char(n % 10))
    }
}

/// Decimal rendering of a signed integer.
pub open spec fn dec_int_str(v: int) -> Seq<char> {
    if v < 0 {
        seq!['-'] + dec_str((-v) as nat)
    } else {
        dec_str(v as nat)
    }
}

/// Powers of ten, for digit-count bounds.
pub open spec fn ten_pow(k: nat) -> nat
    decreases k,
{
    if k == 0 {
        1
    } else {
        10 * ten_pow((k - 1) as nat)
    }
}

/// Every character of a decimal rendering is a digit, and there is at
/// least one.
pub proof fn lemma_dec_str_digits(n: nat)
    ensures
        all_digits(dec_str(n)),
        dec_str(n).len() >= 1,
    decreases n,
{
    if n < 10 {
        assert(is_digit(dec_digit_char(n)));
        assert(all_digits(dec_str(n)));
    } else {
        lemma_dec_str_digits(n / 10);
        let prev = dec_str(n / 10);
        assert forall|i: int| 0 <= i < dec_str(n).len() implies is_digit(
            #[trigger] dec_str(n)[i],
        ) by {
            if i < prev.len() {
                assert(dec_str(n)[i] == prev[i]);
            } else {
                assert(dec_str(n)[i] == dec_digit_char(n % 10));
            }
        }
    }
}

/// A value below the `k`-th power of ten renders in at most `k` digits.
pub proof fn lemma_dec_str_len(n: nat, k: nat)
    requires
        k >= 1,
        n < ten_pow(k),
    ensures
        dec_str(n).len() <= k,
    decreases n,
{
    if n < 10 {
    } else {
        assert(ten_pow(1) == 10 * ten_pow(0));
        if k == 1 {
            assert(false);
        }
        assert(ten_pow(k) == 10 * ten_pow((k - 1) as nat));
        vstd::arithmetic::div_mod::lemma_fundamental_div_mod(n as int, 10);
        assert(n / 10 < ten_pow((k - 1) as nat));
        lemma_dec_str_len(n / 10, (k - 1) as nat);
    }
}

/// Nineteen tens multiplied out.
proof fn lemma_ten_pow_19()
    ensures
        ten_pow(19) == 10_000_000_000_000_000_000,
{
    assert(ten_pow(0) == 1);
    assert(ten_pow(1) == 10);
    assert(ten_pow(2) == 100);
    assert(ten_pow(3) == 1000);
    assert(ten_pow(4) == 10000);
    assert(ten_pow(5) == 100000);
    assert(ten_pow(6) == 1000000);
    assert(ten_pow(7) == 10000000);
    assert(ten_pow(8) == 100000000);
    assert(ten_pow(9) == 1000000000);
    assert(ten_pow(10) == 10000000000);
    assert(ten_pow(11) == 100000000000);
    assert(ten_pow(12) == 1000000000000);
    assert(ten_pow(13) == 10000000000000);
    assert(ten_pow(14) == 100000000000000);
    assert(ten_pow(15) == 1000000000000000);
    assert(ten_pow(16) == 10000000000000000);
    assert(ten_pow(17) == 100000000000000000);
    assert(ten_pow(18) == 1000000000000000000);
    assert(ten_pow(19) == 10000000000000000000);
}

/// The decimal rendering of any `i64` has at most twenty characters.
pub proof fn lemma_dec_int_str_len(v: int)
    requires
        i64::MIN <= v <= i64::MAX,
    ensures
        dec_int_str(v).len() <= 20,
{
    lemma_ten_pow_19();
    if v < 0 {
        lemma_dec_str_len((-v) as nat, 19);
    } else {
        lemma_dec_str_len(v as nat, 19);
    }
}

/// Distinct values render as distinct digit strings.
pub proof fn lemma_dec_str_injective(a: nat, b: nat)
    requires
        dec_str(a) == dec_str(b),
    ensures
        a == b,
    decreases a,
{
    lemma_dec_str_digits(a / 10);
    lemma_dec_str_digits(b / 10);
    if a < 10 && b < 10 {
        assert(dec_str(a)[0] == dec_digit_char(a));
        assert(dec_str(b)[0] == dec_digit_char(b));
        assert(dec_digit_char(a) == dec_digit_char(b));
    } else if a < 10 {
        assert(dec_str(b).len() >= 2);
        assert(false);
    } else if b < 10 {
        assert(dec_str(a).len() >= 2);
        assert(false);
    } else {
        assert(dec_str(a).last() == dec_digit_char(a % 10));
        assert(dec_str(b).last() == dec_digit_char(b % 10));
        assert(a % 10 == b % 10);
        assert(dec_str(a).drop_last() =~= dec_str(a / 10));
        assert(dec_str(b).drop_last() =~= dec_str(b / 10));
        lemma_dec_str_injective(a / 10, b / 10);
        vstd::arithmetic::div_mod::lemma_fundamental_div_mod(a as int, 10);
        vstd::arithmetic::div_mod::lemma_fundamental_div_mod(b as int, 10);
    }
}

/// Distinct integers render as distinct decimal strings.
pub proof fn lemma_dec_int_str_injective(a: int, b: int)
    requires
        dec_int_str(a) == dec_int_str(b),
    ensures
        a == b,
{
    lemma_dec_str_digits((-a) as nat);
    lemma_dec_str_digits((-b) as nat);
    lemma_dec_str_digits(a as nat);
    lemma_dec_str_digits(b as nat);
    if a < 0 && b < 0 {
        assert(dec_int_str(a).drop_first() =~= dec_str((-a) as nat));
        assert(dec_int_str(b).drop_first() =~= dec_str((-b) as nat));
        lemma_dec_str_injective((-a) as nat, (-b) as nat);
    } else if a >= 0 && b >= 0 {
        lemma_dec_str_injective(a as nat, b as nat);
    } else if a < 0 {
        assert(dec_int_str(a)[0] == '-');
        assert(is_digit(dec_int_str(b)[0]));
        assert(false);
    } else {
        assert(dec_int_str(b)[0] == '-');
        assert(is_digit(dec_int_str(a)[0]));
        assert(false);
    }
}

/// The one-character string of a decimal digit.
pub(crate) fn digit_str(d: u64) -> (r: &'static str)
    requires
        d < 10,
    ensures
        r@ == seq![dec_digit_char(d as nat)],
{
    if d == 0 {
        proof {
            reveal_strlit("0");
            assert("0"@ =~= seq![dec_digit_char(0)]);
        }
        "0"
    } else if d == 1 {
        proof {
            reveal_strlit("1");
            assert("1"@ =~= seq![dec_digit_char(1)]);
        }
        "1"
    } else if d == 2 {
        proof {
            reveal_strlit("2");
            assert("2"@ =~= seq![dec_digit_char(2)]);
        }
        "2"
    } else if d == 3 {
        proof {
            reveal_strlit("3");
            assert("3"@ =~= seq![dec_digit_char(3)]);
        }
        "3"
    } else if d == 4 {
        proof {
            reveal_strlit("4");
            assert("4"@ =~= seq![dec_digit_char(4)]);
        }
        "4"
    } else if d == 5 {
        proof {
            reveal_strlit("5");
            assert("5"@ =~= seq![dec_digit_char(5)]);
        }
        "5"
    } else if d == 6 {
        proof {
            reveal_strlit("6");
            assert("6"@ =~= seq![dec_digit_char(6)]);
        }
        "6"
    } else if d == 7 {
        proof {
            reveal_strlit("7");
            assert("7"@ =~= seq![dec_digit_char(7)]);
        }
        "7"
    } else if d == 8 {
        proof {
            reveal_strlit("8");
            assert("8"@ =~= seq![dec_digit_char(8)]);
        }
        "8"
    } else {
        proof {
            reveal_strlit("9");
            assert("9"@ =~= seq![dec_digit_char(9)]);
        }
        "9"
    }
}

/// Render a `u64` in decimal.
pub fn u64_to_string(n: u64) -> (s: String)
    ensures
        s@ == dec_str(n as nat),
    decreases n,
{
    if n < 10 {
        let mut s = String::new();
        s.append(digit_str(n));
        proof {
            assert(s@ =~= seq![dec_digit_char(n as nat)]);
        }
        s
    } else {
        let mut s = u64_to_string(n / 10);
        s.append(digit_str(n % 10));
        proof {
            assert(s@ =~= dec_str((n / 10) as nat).push(dec_digit_char((n % 10) as nat)));
        }
        s
    }
}

/// Render an `i64` in decimal, with a leading minus sign when negative.
pub fn i64_to_string(v: i64) -> (s: String)
    ensures
        s@ == dec_int_str(v as int),
{
    if v >= 0 {
        u64_to_string(v as u64)
    } else {
        let mag: u64 = if v == i64::MIN {
            9223372036854775808
        } else {
            (-v) as u64
        };
        let mut s = String::new();
        proof {
            reveal_strlit("-");
            assert("-"@ =~= seq!['-']);
        }
        s.append("-");
        let rest = u64_to_string(mag);
        s.append(rest.as_str());
        proof {
            assert(s@ =~= seq!['-'] + dec_str(mag as nat));
        }
        s
    }
}

} // verus!
