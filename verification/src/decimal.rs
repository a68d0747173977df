//! Decimal rendering and parsing of `u64` values, used by the
//! sequence-number range parameter of recovery queries.

use vstd::arithmetic::div_mod::lemma_fundamental_div_mod;
use vstd::prelude::*;

verus! {

pub open spec fn is_digit(c: char) -> bool {
    48 <= c as u32 <= 57
}

pub open spec fn digit_val(c: char) -> int {
    c as u32 - 48
}

pub open spec fn char_of_digit(d: int) -> char
    recommends
        0 <= d < 10,
{
    if d == 0 {
        '0'
    } else if d == 1 {
        '1'
    } else if d == 2 {
        '2'
    } else if d == 3 {
        '3'
    } else if d == 4 {
        '4'
    } else if d == 5 {
        '5'
    } else if d == 6 {
        '6'
    } else if d == 7 {
        '7'
    } else if d == 8 {
        '8'
    } else {
        '9'
    }
}

/// The decimal digit string of `n`, most significant digit first, with no
/// leading zero except for `n == 0` itself.
pub open spec fn dec_digits(n: nat) -> Seq<char>
    decreases n,
{
    if n < 10 {
        seq![char_of_digit(n as int)]
    } else {
        dec_digits(n / 10) + seq![char_of_digit((n % 10) as int)]
    }
}

pub open spec fn all_digits(s: Seq<char>) -> bool {
    forall|i: int| 0 <= i < s.len() ==> is_digit(s[i])
}

/// The value of a digit string, most significant digit first.
pub open spec fn digits_val(s: Seq<char>) -> int
    decreases s.len(),
{
    if s.len() == 0 {
        0
    } else {
        digits_val(s.drop_last()) * 10 + digit_val(s.last())
    }
}

/// What a decimal string denotes: `None` unless it is a non-empty run of
/// digits whose value fits a `u64`.
pub open spec fn parse_u64_spec(s: Seq<char>) -> Option<u64> {
    if s.len() == 0 || !all_digits(s) {
        None
    } else if digits_val(s) > u64::MAX {
        None
    } else {
        Some(digits_val(s) as u64)
    }
}

proof fn lemma_char_digit(d: int)
    requires
        0 <= d < 10,
    ensures
        is_digit(char_of_digit(d)),
        digit_val(char_of_digit(d)) == d,
{
    assert('0' as u32 == 48);
    assert('1' as u32 == 49);
    assert('2' as u32 == 50);
    assert('3' as u32 == 51);
    assert('4' as u32 == 52);
    assert('5' as u32 == 53);
    assert('6' as u32 == 54);
    assert('7' as u32 == 55);
    assert('8' as u32 == 56);
    assert('9' as u32 == 57);
}

/// Rendering is faithful: the digit string of `n` is all digits, non-empty,
/// and denotes `n` again.
pub proof fn lemma_dec_digits_val(n: nat)
    ensures
        dec_digits(n).len() >= 1,
        all_digits(dec_digits(n)),
        digits_val(dec_digits(n)) == n,
    decreases n,
{
    if n < 10 {
        lemma_char_digit(n as int);
        let s = dec_digits(n);
        assert(s.drop_last() =~= Seq::<char>::empty());
        assert(s.last() == char_of_digit(n as int));
        assert(all_digits(s)) by {
            assert(forall|i: int| 0 <= i < s.len() ==> s[i] == char_of_digit(n as int));
        }
        assert(digits_val(s) == digits_val(s.drop_last()) * 10 + digit_val(s.last()));
        assert(digits_val(Seq::<char>::empty()) == 0);
        assert(digits_val(s) == n);
    } else {
        lemma_dec_digits_val(n / 10);
        lemma_char_digit((n % 10) as int);
        lemma_fundamental_div_mod(n as int, 10);
        let a = dec_digits(n / 10);
        let c = char_of_digit((n % 10) as int);
        let s = a + seq![c];
        assert(s.drop_last() =~= a);
        assert(s.last() == c);
        assert(digits_val(s) == digits_val(a) * 10 + digit_val(c));
        assert(digits_val(a) == n / 10);
        assert(digit_val(c) == n % 10);
        assert(n == 10 * ((n as int) / 10) + (n as int) % 10);
        assert(digits_val(s) == n);
        assert(dec_digits(n) == s);
        assert forall|i: int| 0 <= i < s.len() implies is_digit(s[i]) by {
            if i < a.len() {
                assert(s[i] == a[i]);
            } else {
                assert(s[i] == c);
            }
        }
    }
}

/// A digit string's value never shrinks as the string grows to the right.
proof fn lemma_digits_val_nonneg(s: Seq<char>)
    requires
        all_digits(s),
    ensures
        digits_val(s) >= 0,
    decreases s.len(),
{
    if s.len() > 0 {
        assert(all_digits(s.drop_last())) by {
            assert(forall|i: int| 0 <= i < s.len() - 1 ==> s.drop_last()[i] == s[i]);
        }
        lemma_digits_val_nonneg(s.drop_last());
        assert(is_digit(s.last()));
    }
}

/// Extending a digit string to the right never lowers its value.
proof fn lemma_digits_val_monotone(s: Seq<char>, i: int)
    requires
        all_digits(s),
        0 <= i <= s.len(),
    ensures
        digits_val(s.subrange(0, i)) <= digits_val(s),
    decreases s.len() - i,
{
    if i == s.len() {
        assert(s.subrange(0, i) =~= s);
    } else {
        lemma_digits_val_monotone(s, i + 1);
        let p = s.subrange(0, i + 1);
        assert(p.drop_last() =~= s.subrange(0, i));
        assert(all_digits(s.subrange(0, i))) by {
            assert(forall|j: int| 0 <= j < i ==> s.subrange(0, i)[j] == s[j]);
        }
        lemma_digits_val_nonneg(s.subrange(0, i));
        assert(all_digits(p)) by {
            assert(forall|j: int| 0 <= j < i + 1 ==> p[j] == s[j]);
        }
        assert(is_digit(p.last()));
        assert(digits_val(p) == digits_val(s.subrange(0, i)) * 10 + digit_val(p.last()));
        assert(digits_val(s.subrange(0, i)) <= digits_val(p));
    }
}

fn digit_str(d: u64) -> (r: &'static str)
    requires
        d < 10,
    ensures
        r@ == seq![char_of_digit(d as int)],
{
    proof {
        reveal_strlit("0");
        reveal_strlit("1");
        reveal_strlit("2");
        reveal_strlit("3");
        reveal_strlit("4");
        reveal_strlit("5");
        reveal_strlit("6");
        reveal_strlit("7");
        reveal_strlit("8");
        reveal_strlit("9");
    }
    match d {
        0 => "0",
        1 => "1",
        2 => "2",
        3 => "3",
        4 => "4",
        5 => "5",
        6 => "6",
        7 => "7",
        8 => "8",
        _ => "9",
    }
}

/// Renders `n` in decimal, most significant digit first.
pub fn fmt_u64(n: u64) -> (r: String)
    ensures
        r@ == dec_digits(n as nat),
    decreases n,
{
    let d = n % 10;
    if n < 10 {
        digit_str(d).to_owned()
    } else {
        proof {
            assert(n / 10 < n) by (nonlinear_arith)
                requires
                    n >= 10,
            ;
        }
        let mut s = fmt_u64(n / 10);
        s.append(digit_str(d));
        s
    }
}

/// Parses a decimal string: succeeds exactly on non-empty all-digit strings
/// whose value fits a `u64`.
pub fn parse_u64(s: &str) -> (r: Option<u64>)
    ensures
        r == parse_u64_spec(s@),
{
    let n = s.unicode_len();
    if n == 0 {
        return None;
    }
    let mut acc: u64 = 0;
    let mut i: usize = 0;
    proof {
        assert(s@.subrange(0, 0) =~= Seq::<char>::empty());
    }
    while i < n
        invariant
            n == s@.len(),
            0 <= i <= n,
            all_digits(s@.subrange(0, i as int)),
            acc == digits_val(s@.subrange(0, i as int)),
        decreases n - i,
    {
        let c = s.get_char(i);
        let v = c as u32;
        if v < 48 || v > 57 {
            proof {
                assert(!is_digit(s@[i as int]));
            }
            return None;
        }
        let d = (v - 48) as u64;
        let acc10 = match acc.checked_mul(10) {
            Some(x) => x,
            None => {
                proof {
                    lemma_parse_overflow(s@, i as int, acc as int, d as int);
                }
                return None;
            },
        };
        let acc2 = match acc10.checked_add(d) {
            Some(x) => x,
            None => {
                proof {
                    lemma_parse_overflow(s@, i as int, acc as int, d as int);
                }
                return None;
            },
        };
        proof {
            let p = s@.subrange(0, i + 1);
            assert(p.drop_last() =~= s@.subrange(0, i as int));
            assert(p.last() == s@[i as int]);
            assert(all_digits(p)) by {
                assert(forall|j: int| 0 <= j < i + 1 ==> p[j] == s@[j]);
            }
        }
        acc = acc2;
        i = i + 1;
    }
    proof {
        assert(s@.subrange(0, n as int) =~= s@);
        lemma_digits_val_nonneg(s@);
    }
    Some(acc)
}

/// If one more digit already pushes the running value past `u64::MAX`, the
/// whole string's value lies past it too.
proof fn lemma_parse_overflow(s: Seq<char>, i: int, acc: int, d: int)
    requires
        0 <= i < s.len(),
        all_digits(s.subrange(0, i)),
        is_digit(s[i]),
        acc == digits_val(s.subrange(0, i)),
        d == digit_val(s[i]),
        acc * 10 + d > u64::MAX,
    ensures
        !all_digits(s) || digits_val(s) > u64::MAX,
{
    if all_digits(s) {
        let p = s.subrange(0, i + 1);
        assert(p.drop_last() =~= s.subrange(0, i));
        assert(p.last() == s[i]);
        assert(digits_val(p) == acc * 10 + d);
        assert(all_digits(p)) by {
            assert(forall|j: int| 0 <= j < i + 1 ==> p[j] == s[j]);
        }
        lemma_digits_val_monotone(s, i + 1);
    }
}

/// Rendering then parsing gives the value back: the decimal round trip.
pub proof fn lemma_u64_round_trip(n: u64)
    ensures
        parse_u64_spec(dec_digits(n as nat)) == Some(n),
{
    lemma_dec_digits_val(n as nat);
}

} // verus!
