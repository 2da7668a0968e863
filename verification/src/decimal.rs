//! Decimal text of unsigned integers, as used in log file names.

use vstd::prelude::*;

verus! {

/// The character of decimal digit `d`.
pub open spec fn digit_char(d: nat) -> char
    recommends
        d < 10,
{
    (48 + d) as char
}

/// Whether `c` is one of the ASCII digits `0` to `9`.
pub open spec fn is_digit(c: char) -> bool {
    '0' <= c && c <= '9'
}

/// The numeric value of digit character `c`.
pub open spec fn digit_value(c: char) -> nat {
    (c as int - 48) as nat
}

/// The shortest decimal text of `n`, most significant digit first.
pub open spec fn decimal(n: nat) -> Seq<char>
    decreases n,
{
    if n < 10 {
        seq![digit_char(n)]
    } else {
        decimal(n / 10).push(digit_char(n % 10))
    }
}

/// Whether every character of `s` is a digit.
pub open spec fn all_digits(s: Seq<char>) -> bool {
    forall|i: int| 0 <= i < s.len() ==> is_digit(#[trigger] s[i])
}

/// The value of the digit string `s`, read in base ten.
pub open spec fn digits_value(s: Seq<char>) -> nat
    decreases s.len(),
{
    if s.len() == 0 {
        0
    } else {
        digits_value(s.drop_last()) * 10 + digit_value(s.last())
    }
}

/// What parsing `s` as a `u64` gives: an optional leading `+`, then at
/// least one digit, with a value that fits in 64 bits.
pub open spec fn parse_u64_spec(s: Seq<char>) -> Option<u64> {
    let body = if s.len() > 0 && s[0] == '+' {
        s.drop_first()
    } else {
        s
    };
    if body.len() > 0 && all_digits(body) && digits_value(body) <= u64::MAX {
        Some(digits_value(body) as u64)
    } else {
        None
    }
}

/// The digit character of `d` is a digit worth `d`.
proof fn lemma_digit_char(d: nat)
    requires
        d < 10,
    ensures
        is_digit(digit_char(d)),
        digit_value(digit_char(d)) == d,
{
    assert(((48 + d) as char) as int == 48 + d);
}

/// The decimal text of `n` is a non-empty digit string worth `n`.
pub proof fn lemma_decimal(n: nat)
    ensures
        decimal(n).len() > 0,
        all_digits(decimal(n)),
        digits_value(decimal(n)) == n,
    decreases n,
{
    lemma_digit_char(n % 10);
    if n < 10 {
        assert(n % 10 == n);
        assert(decimal(n).drop_last() =~= Seq::<char>::empty());
        assert(digits_value(decimal(n)) == digits_value(Seq::<char>::empty()) * 10 + digit_value(
            digit_char(n),
        ));
    } else {
        lemma_decimal(n / 10);
        let d = decimal(n);
        assert(d.drop_last() =~= decimal(n / 10));
        assert(d.last() == digit_char(n % 10));
        assert(digits_value(d) == digits_value(decimal(n / 10)) * 10 + digit_value(
            digit_char(n % 10),
        ));
        assert(n == (n / 10) * 10 + n % 10);
        assert forall|i: int| 0 <= i < d.len() implies is_digit(#[trigger] d[i]) by {
            if i < d.len() - 1 {
                assert(d[i] == decimal(n / 10)[i]);
            }
        }
    }
}

/// A non-empty digit string whose first digit is not `0` is worth at least 1.
proof fn lemma_leading_digit_positive(s: Seq<char>)
    requires
        s.len() > 0,
        all_digits(s),
        s[0] != '0',
    ensures
        digits_value(s) >= 1,
    decreases s.len(),
{
    if s.len() > 1 {
        assert(s.drop_last()[0] == s[0]);
        assert forall|i: int| 0 <= i < s.drop_last().len() implies is_digit(
            #[trigger] s.drop_last()[i],
        ) by {
            assert(s.drop_last()[i] == s[i]);
        }
        lemma_leading_digit_positive(s.drop_last());
    } else {
        assert(s.drop_last() =~= Seq::<char>::empty());
        assert(is_digit(s[0]));
    }
}

/// The decimal text of `n` is the shortest one: a non-empty string of
/// digits worth `n`, with no leading zero (it starts with `0` only for 0
/// itself), one digit long exactly for `n` below 10. It is the only such
/// text: any digit string with these properties is `decimal(n)`.
pub proof fn law_decimal_is_shortest(n: nat)
    ensures
        decimal(n).len() > 0,
        all_digits(decimal(n)),
        digits_value(decimal(n)) == n,
        decimal(n)[0] == '0' <==> n == 0,
        decimal(n).len() == 1 <==> n < 10,
        forall|s: Seq<char>|
            s.len() > 0 && all_digits(s) && #[trigger] digits_value(s) == n && (s[0] != '0'
                || s.len() == 1) ==> s == decimal(n),
    decreases n,
{
    lemma_decimal(n);
    let d = decimal(n);
    if n >= 10 {
        law_decimal_is_shortest(n / 10);
        assert(d[0] == decimal(n / 10)[0]);
        assert(d.len() == decimal(n / 10).len() + 1);
    } else {
        lemma_digit_char(n);
        assert(d[0] == digit_char(n));
        assert((48 + n) as char == '0' <==> n == 0);
    }
    assert forall|s: Seq<char>|
        s.len() > 0 && all_digits(s) && #[trigger] digits_value(s) == n && (s[0] != '0' || s.len()
            == 1) implies s == decimal(n) by {
        lemma_unique_decimal(s, n);
    }
}

proof fn lemma_unique_decimal(s: Seq<char>, n: nat)
    requires
        s.len() > 0,
        all_digits(s),
        digits_value(s) == n,
        s[0] != '0' || s.len() == 1,
    ensures
        s == decimal(n),
    decreases s.len(),
{
    let c = s.last();
    let t = s.drop_last();
    assert(is_digit(s[s.len() - 1]));
    let dv = digit_value(c);
    assert(dv < 10);
    assert(n == digits_value(t) * 10 + dv);
    assert(n / 10 == digits_value(t) && n % 10 == dv);
    assert(digit_char(dv) == c) by {
        assert(((48 + (c as int - 48)) as char) == c);
    }
    if s.len() == 1 {
        assert(t =~= Seq::<char>::empty());
        assert(n == dv);
        assert(s =~= seq![digit_char(n)]);
    } else {
        assert(t[0] == s[0]);
        assert forall|i: int| 0 <= i < t.len() implies is_digit(#[trigger] t[i]) by {
            assert(t[i] == s[i]);
        }
        lemma_leading_digit_positive(t);
        lemma_unique_decimal(t, n / 10);
        assert(s =~= decimal(n / 10).push(digit_char(n % 10)));
    }
}

/// Reading the decimal text of `n` as a `u64` gives `n` back.
pub proof fn law_parse_decimal(n: u64)
    ensures
        parse_u64_spec(decimal(n as nat)) == Some(n),
{
    lemma_decimal(n as nat);
    assert(is_digit(decimal(n as nat)[0]));
}

/// The text of a single digit.
fn digit_str(d: u64) -> (s: &'static str)
    requires
        d < 10,
    ensures
        s@ == seq![digit_char(d as nat)],
{
    match d {
        0 => {
            proof {
                reveal_strlit("0");
            }
            "0"
        },
        1 => {
            proof {
                reveal_strlit("1");
            }
            "1"
        },
        2 => {
            proof {
                reveal_strlit("2");
            }
            "2"
        },
        3 => {
            proof {
                reveal_strlit("3");
            }
            "3"
        },
        4 => {
            proof {
                reveal_strlit("4");
            }
            "4"
        },
        5 => {
            proof {
                reveal_strlit("5");
            }
            "5"
        },
        6 => {
            proof {
                reveal_strlit("6");
            }
            "6"
        },
        7 => {
            proof {
                reveal_strlit("7");
            }
            "7"
        },
        8 => {
            proof {
                reveal_strlit("8");
            }
            "8"
        },
        _ => {
            proof {
                reveal_strlit("9");
            }
            "9"
        },
    }
}

/// The decimal text of `n`.
pub fn to_decimal(n: u64) -> (s: String)
    ensures
        s@ == decimal(n as nat),
        s@.len() > 0,
        all_digits(s@),
        digits_value(s@) == n,
        s@[0] == '0' <==> n == 0,
        s@.len() == 1 <==> n < 10,
    decreases n,
{
    proof {
        law_decimal_is_shortest(n as nat);
    }
    if n < 10 {
        digit_str(n).to_owned()
    } else {
        let mut s = to_decimal(n / 10);
        s.append(digit_str(n % 10));
        s
    }
}

/// A digit string is worth at least as much as each of its prefixes.
proof fn lemma_prefix_value_le(s: Seq<char>, j: int)
    requires
        0 <= j <= s.len(),
    ensures
        digits_value(s.take(j)) <= digits_value(s),
    decreases s.len(),
{
    if j == s.len() {
        assert(s.take(j) =~= s);
    } else {
        lemma_prefix_value_le(s.drop_last(), j);
        assert(s.drop_last().take(j) =~= s.take(j));
    }
}

/// Parses `s` as a `u64` the way `str::parse::<u64>` reads it.
pub fn parse_u64(s: &str) -> (r: Option<u64>)
    ensures
        r == parse_u64_spec(s@),
{
    let n = s.unicode_len();
    let mut start: usize = 0;
    if n > 0 && s.get_char(0) == '+' {
        start = 1;
    }
    let ghost body = s@.subrange(start as int, n as int);
    assert(body =~= if s@.len() > 0 && s@[0] == '+' { s@.drop_first() } else { s@ });
    if start == n {
        return None;
    }
    let mut v: u64 = 0;
    let mut i: usize = start;
    while i < n
        invariant
            start <= i <= n,
            n == s@.len(),
            body == s@.subrange(start as int, n as int),
            body == (if s@.len() > 0 && s@[0] == '+' { s@.drop_first() } else { s@ }),
            body.len() > 0,
            all_digits(body.take(i - start)),
            v == digits_value(body.take(i - start)),
        decreases n - i,
    {
        let c = s.get_char(i);
        assert(body[i - start] == c);
        if !(c >= '0' && c <= '9') {
            assert(!all_digits(body));
            return None;
        }
        let d: u64 = (c as u32 - 48u32) as u64;
        assert(body.take(i + 1 - start).drop_last() =~= body.take(i - start));
        assert(digits_value(body.take(i + 1 - start)) == v * 10 + d);
        match v.checked_mul(10) {
            None => {
                proof {
                    if all_digits(body) {
                        lemma_prefix_value_le(body, i + 1 - start);
                    }
                }
                return None;
            },
            Some(m) => match m.checked_add(d) {
                None => {
                    proof {
                        if all_digits(body) {
                            lemma_prefix_value_le(body, i + 1 - start);
                        }
                    }
                    return None;
                },
                Some(w) => {
                    v = w;
                },
            },
        }
        i = i + 1;
    }
    assert(body.take(n - start) =~= body);
    Some(v)
}

} // verus!
