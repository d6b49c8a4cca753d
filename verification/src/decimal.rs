//! Decimal text: the digit string a number prints as, and the numbers a
//! digit string parses to. Backs the plain-text image output and the
//! numeric command-line defaults.

use vstd::prelude::*;
use vstd::string::StrSliceExecFns;
use vstd::string::StringExecFns;

verus! {

/// The character that prints a single decimal digit.
pub open spec fn digit_char(d: nat) -> char {
    if d == 0 {
        '0'
    } else if d == 1 {
        '1'
    } else if d == 2 {
        '2'
    } else if d == 3 {
        '3'
    } else if d == 4 {
        '4'
    } else if d == 5 {
        '5'
    } else if d == 6 {
        '6'
    } else if d == 7 {
        '7'
    } else if d == 8 {
        '8'
    } else {
        '9'
    }
}

/// The decimal digit string of `n`, most significant digit first, with no
/// leading zero except for `n == 0` itself.
pub open spec fn dec_digits(n: nat) -> Seq<char>
    decreases n,
{
    if n < 10 {
        seq![digit_char(n)]
    } else {
        dec_digits(n / 10).push(digit_char(n % 10))
    }
}

fn append_digit(s: &mut String, d: u32)
    requires
        d < 10,
    ensures
        final(s)@ == old(s)@.push(digit_char(d as nat)),
{
    if d == 0 {
        proof {
            reveal_strlit("0");
        }
        s.append("0");
    } else if d == 1 {
        proof {
            reveal_strlit("1");
        }
        s.append("1");
    } else if d == 2 {
        proof {
            reveal_strlit("2");
        }
        s.append("2");
    } else if d == 3 {
        proof {
            reveal_strlit("3");
        }
        s.append("3");
    } else if d == 4 {
        proof {
            reveal_strlit("4");
        }
        s.append("4");
    } else if d == 5 {
        proof {
            reveal_strlit("5");
        }
        s.append("5");
    } else if d == 6 {
        proof {
            reveal_strlit("6");
        }
        s.append("6");
    } else if d == 7 {
        proof {
            reveal_strlit("7");
        }
        s.append("7");
    } else if d == 8 {
        proof {
            reveal_strlit("8");
        }
        s.append("8");
    } else {
        proof {
            reveal_strlit("9");
        }
        s.append("9");
    }
    proof {
        assert(s@ =~= old(s)@.push(digit_char(d as nat)));
    }
}

/// Appends the decimal digit string of `n` to `s`.
pub fn append_decimal(s: &mut String, n: u32)
    ensures
        final(s)@ == old(s)@ + dec_digits(n as nat),
    decreases n,
{
    if n >= 10 {
        append_decimal(s, n / 10);
    }
    append_digit(s, n % 10);
    proof {
        assert(s@ =~= old(s)@ + dec_digits(n as nat));
    }
}

/// An ASCII decimal digit.
pub open spec fn is_dec_digit(c: char) -> bool {
    48 <= c as int && c as int <= 57
}

/// The value of one decimal digit character.
pub open spec fn digit_value(c: char) -> nat {
    (c as int - 48) as nat
}

pub open spec fn all_dec_digits(s: Seq<char>) -> bool {
    forall|i: int| 0 <= i < s.len() ==> is_dec_digit(#[trigger] s[i])
}

/// The number a digit string denotes, most significant digit first.
pub open spec fn numeral_value(s: Seq<char>) -> nat
    decreases s.len(),
{
    if s.len() == 0 {
        0
    } else {
        numeral_value(s.drop_last()) * 10 + digit_value(s.last())
    }
}

/// The digits of a numeral: everything after an optional leading `+`.
pub open spec fn numeral_body(s: Seq<char>) -> Seq<char> {
    if s.len() > 0 && s[0] == '+' {
        s.drop_first()
    } else {
        s
    }
}

/// Exactly the strings `u32` parsing accepts: an optional `+`, then one or
/// more decimal digits, denoting a value that fits in a `u32`.
pub open spec fn is_u32_numeral(s: Seq<char>) -> bool {
    &&& numeral_body(s).len() > 0
    &&& all_dec_digits(numeral_body(s))
    &&& numeral_value(numeral_body(s)) <= u32::MAX
}

proof fn lemma_numeral_value_prefix(s: Seq<char>, k: int)
    requires
        0 <= k <= s.len(),
    ensures
        numeral_value(s.take(k)) <= numeral_value(s),
    decreases s.len(),
{
    if k < s.len() {
        assert(s.drop_last().take(k) =~= s.take(k));
        lemma_numeral_value_prefix(s.drop_last(), k);
    } else {
        assert(s.take(k) =~= s);
    }
}

/// The number denoted by `s`, if `s` is a well-formed `u32` numeral.
pub fn parse_u32(s: &str) -> (r: Option<u32>)
    ensures
        is_u32_numeral(s@) ==> r == Some((numeral_value(numeral_body(s@)) as u32)),
        !is_u32_numeral(s@) ==> r is None,
{
    let n = s.unicode_len();
    let mut start: usize = 0;
    if n > 0 && s.get_char(0) == '+' {
        start = 1;
    }
    proof {
        assert(numeral_body(s@) =~= s@.skip(start as int));
    }
    if start == n {
        return None;
    }
    let mut acc: u32 = 0;
    let mut j: usize = start;
    while j < n
        invariant
            start <= j <= n,
            n == s@.len(),
            numeral_body(s@) == s@.skip(start as int),
            all_dec_digits(s@.subrange(start as int, j as int)),
            acc == numeral_value(s@.subrange(start as int, j as int)),
        decreases n - j,
    {
        let c = s.get_char(j);
        let cv = c as u32;
        if cv < 48 || cv > 57 {
            proof {
                assert(!is_dec_digit(numeral_body(s@)[j - start]));
            }
            return None;
        }
        let d = cv - 48;
        let ghost prefix = s@.subrange(start as int, j as int);
        let ghost grown = s@.subrange(start as int, j as int + 1);
        proof {
            assert(grown.drop_last() =~= prefix);
            assert(numeral_value(grown) == acc * 10 + d);
        }
        if acc > (u32::MAX - d) / 10 {
            proof {
                assert(acc * 10 + d > u32::MAX) by (nonlinear_arith)
                    requires
                        acc > (u32::MAX - d) / 10,
                        d < 10,
                ;
                assert(numeral_body(s@).take(j + 1 - start) =~= grown);
                lemma_numeral_value_prefix(numeral_body(s@), j + 1 - start);
            }
            return None;
        }
        proof {
            assert(acc * 10 + d <= u32::MAX) by (nonlinear_arith)
                requires
                    acc <= (u32::MAX - d) / 10,
                    d < 10,
            ;
        }
        acc = acc * 10 + d;
        j += 1;
    }
    proof {
        assert(s@.subrange(start as int, n as int) =~= numeral_body(s@));
    }
    Some(acc)
}

/// The parsed value of `number` where it is a well-formed `u32` numeral;
/// `default` where it is absent or malformed.
pub fn get_uint_or(number: Option<&String>, default: u32) -> (r: u32)
    ensures
        r == (match number {
            Some(s) => if is_u32_numeral(s@) {
                numeral_value(numeral_body(s@)) as u32
            } else {
                default
            },
            None => default,
        }),
{
    match number {
        Some(num_str) => match parse_u32(num_str.as_str()) {
            Some(num) => num,
            None => default,
        },
        None => default,
    }
}

} // verus!
