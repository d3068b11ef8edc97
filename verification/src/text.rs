//! Decimal and hexadecimal renderings of integers, as `format!` writes
//! them with `{}` and `{:x}`.

use vstd::arithmetic::div_mod::lemma_div_decreases;
use vstd::prelude::*;

verus! {

/// The character of digit `d` (below 16) in lowercase base 16; the first
/// ten are also the decimal digits.
pub open spec fn digit_char(d: nat) -> char {
    if d < 10 {
        (d + 48) as char
    } else {
        (d + 87) as char
    }
}

/// The digits of `n` in base `b`, most significant first, without
/// leading zeros; zero is written as a single `0`.
pub open spec fn digits(n: nat, b: nat) -> Seq<char>
    recommends
        2 <= b <= 16,
    decreases n,
{
    if n < b || b < 2 {
        seq![digit_char(n)]
    } else {
        proof {
            lemma_div_decreases(n as int, b as int);
        }
        digits(n / b, b).push(digit_char(n % b))
    }
}

/// `n` written in decimal.
pub open spec fn decimal(n: nat) -> Seq<char> {
    digits(n, 10)
}

/// `n` written in lowercase hexadecimal.
pub open spec fn hex_lower(n: nat) -> Seq<char> {
    digits(n, 16)
}

/// A signed integer written in decimal, with a leading `-` when negative.
pub open spec fn signed_decimal(v: int) -> Seq<char> {
    if v < 0 {
        seq!['-'] + decimal((-v) as nat)
    } else {
        decimal(v as nat)
    }
}

/// The value of a digit character in base 16 (lowercase), if it is one.
pub open spec fn char_value(c: char) -> int {
    if '0' <= c <= '9' {
        c as int - 48
    } else if 'a' <= c <= 'f' {
        c as int - 87
    } else {
        -1
    }
}

/// The number that a string of digits denotes in base `b`.
pub open spec fn digits_value(s: Seq<char>, b: nat) -> int
    decreases s.len(),
{
    if s.len() == 0 {
        0
    } else {
        digits_value(s.drop_last(), b) * b + char_value(s.last())
    }
}

/// Every character is a digit of base `b`.
pub open spec fn all_digits(s: Seq<char>, b: nat) -> bool {
    forall|i: int| 0 <= i < s.len() ==> 0 <= #[trigger] char_value(s[i]) < b
}

proof fn lemma_digit_char_value(d: nat)
    requires
        d < 16,
    ensures
        char_value(digit_char(d)) == d,
{
}

/// Reading back the digits that `digits` writes gives the number, every
/// character is a digit of the base, a single digit is written exactly for
/// the numbers below the base, and there is no leading zero.
pub proof fn lemma_digits_roundtrip(n: nat, b: nat)
    requires
        2 <= b <= 16,
    ensures
        digits_value(digits(n, b), b) == n,
        all_digits(digits(n, b), b),
        digits(n, b).len() >= 1,
        digits(n, b).len() == 1 <==> n < b,
        digits(n, b)[0] == '0' ==> n == 0,
    decreases n,
{
    if n < b {
        lemma_digit_char_value(n);
        let s = digits(n, b);
        assert(s.drop_last() =~= Seq::<char>::empty());
        assert(digits_value(s.drop_last(), b) == 0);
        assert(0 * b == 0);
        assert(digits_value(s, b) == n);
    } else {
        let q = n / b;
        let r = n % b;
        lemma_div_decreases(n as int, b as int);
        lemma_digits_roundtrip(q, b);
        lemma_digit_char_value(r);
        let s = digits(n, b);
        assert(s.drop_last() =~= digits(q, b));
        assert(q * b + r == n) by (nonlinear_arith)
            requires
                q == n / b,
                r == n % b,
                b > 0,
        ;
        assert forall|i: int| 0 <= i < s.len() implies 0 <= #[trigger] char_value(s[i]) < b by {
            if i < s.len() - 1 {
                assert(s[i] == digits(q, b)[i]);
            } else {
                lemma_digit_char_value(r);
            }
        }
        assert(q >= 1) by (nonlinear_arith)
            requires
                n >= b,
                b > 0,
                q == n / b,
        ;
        assert(s[0] == digits(q, b)[0]);
        assert(s.last() == digit_char(r));
        assert(digits_value(s, b) == digits_value(digits(q, b), b) * b + char_value(digit_char(r)));
        assert(digits_value(s, b) == n);
    }
}

/// Different numbers are written differently in any base from 2 to 16; in
/// particular two different clock readings give two different suffixes.
pub proof fn lemma_digits_injective(a: nat, c: nat, b: nat)
    requires
        2 <= b <= 16,
        a != c,
    ensures
        digits(a, b) != digits(c, b),
{
    lemma_digits_roundtrip(a, b);
    lemma_digits_roundtrip(c, b);
}

/// The string literal of one digit.
fn digit_str(d: u8) -> (r: &'static str)
    requires
        d < 16,
    ensures
        r@ == seq![digit_char(d as nat)],
{
    match d {
        0 => {
            proof {
                reveal_strlit("0");
            }
            "0"
        },
        1 => {
            proof {
                reveal_strlit("1");
            }
            "1"
        },
        2 => {
            proof {
                reveal_strlit("2");
            }
            "2"
        },
        3 => {
            proof {
                reveal_strlit("3");
            }
            "3"
        },
        4 => {
            proof {
                reveal_strlit("4");
            }
            "4"
        },
        5 => {
            proof {
                reveal_strlit("5");
            }
            "5"
        },
        6 => {
            proof {
                reveal_strlit("6");
            }
            "6"
        },
        7 => {
            proof {
                reveal_strlit("7");
            }
            "7"
        },
        8 => {
            proof {
                reveal_strlit("8");
            }
            "8"
        },
        9 => {
            proof {
                reveal_strlit("9");
            }
            "9"
        },
        10 => {
            proof {
                reveal_strlit("a");
            }
            "a"
        },
        11 => {
            proof {
                reveal_strlit("b");
            }
            "b"
        },
        12 => {
            proof {
                reveal_strlit("c");
            }
            "c"
        },
        13 => {
            proof {
                reveal_strlit("d");
            }
            "d"
        },
        14 => {
            proof {
                reveal_strlit("e");
            }
            "e"
        },
        _ => {
            proof {
                reveal_strlit("f");
            }
            "f"
        },
    }
}

/// Appends the digits of `n` in base `b`.
fn push_digits(out: &mut String, n: u128, b: u128)
    requires
        2 <= b <= 16,
    ensures
        final(out)@ == old(out)@ + digits(n as nat, b as nat),
    decreases n,
{
    if n >= b {
        proof {
            lemma_div_decreases(n as int, b as int);
        }
        push_digits(out, n / b, b);
    }
    let ghost mid = out@;
    let d = (n % b) as u8;
    out.append(digit_str(d));
    proof {
        if n >= b {
            assert(mid == old(out)@ + digits((n / b) as nat, b as nat));
            assert(digits(n as nat, b as nat) == digits((n / b) as nat, b as nat).push(
                digit_char((n % b) as nat),
            ));
            assert(out@ =~= old(out)@ + digits(n as nat, b as nat));
        } else {
            assert(mid == old(out)@);
            vstd::arithmetic::div_mod::lemma_small_mod(n as nat, b as nat);
            assert(d == n);
            assert(digits(n as nat, b as nat) == seq![digit_char(n as nat)]);
            assert(out@ =~= old(out)@ + digits(n as nat, b as nat));
        }
    }
}

/// Writes `n` in decimal, as `format!("{}", n)` does.
pub fn decimal_string(n: u64) -> (r: String)
    ensures
        r@ == decimal(n as nat),
{
    let mut out = String::new();
    push_digits(&mut out, n as u128, 10);
    proof {
        assert(out@ =~= decimal(n as nat));
    }
    out
}

/// Writes `v` in decimal with a leading `-` when negative, as
/// `format!("{}", v)` does.
pub fn signed_decimal_string(v: i64) -> (r: String)
    ensures
        r@ == signed_decimal(v as int),
{
    let mut out = String::new();
    if v < 0 {
        proof {
            reveal_strlit("-");
        }
        out.append("-");
        let magnitude: u128 = (0i128 - v as i128) as u128;
        push_digits(&mut out, magnitude, 10);
    } else {
        push_digits(&mut out, v as u128, 10);
    }
    proof {
        assert(out@ =~= signed_decimal(v as int));
    }
    out
}

/// Writes `n` in lowercase hexadecimal, as `format!("{:x}", n)` does.
pub fn hex_string(n: u128) -> (r: String)
    ensures
        r@ == hex_lower(n as nat),
{
    let mut out = String::new();
    push_digits(&mut out, n, 16);
    proof {
        assert(out@ =~= hex_lower(n as nat));
    }
    out
}

} // verus!
