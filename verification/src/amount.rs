//! Monetary amounts as integer cents.
//!
//! Amounts are signed integers counting hundredths (cents): positive for
//! income, negative for expenses.  This module gives the exact decimal
//! rendering used by the report (`+200.00`, `-3.80`, `21.26`) and the parser
//! for the raw amount field of an export row, which writes a decimal number
//! with `,` (or `.`) as the fractional separator.

use vstd::prelude::*;
use vstd::string::*;

verus! {

/// Largest magnitude, in cents, that a parsed amount may have.  Rows whose
/// amount lies outside this range are rejected, which keeps every sum the
/// report forms far away from machine limits.
pub const AMOUNT_LIMIT: i64 = 1_000_000_000_000;

/// The decimal digit character for `d` in `0..=9`.
pub open spec fn digit_char(d: int) -> char {
    if d == 0 {
        '0'
    } else if d == 1 {
        '1'
    } else if d == 2 {
        '2'
    } else if d == 3 {
        '3'
    } else if d == 4 {
        '4'
    } else if d == 5 {
        '5'
    } else if d == 6 {
        '6'
    } else if d == 7 {
        '7'
    } else if d == 8 {
        '8'
    } else {
        '9'
    }
}

/// The usual decimal rendering of `n >= 0`, without sign or padding.
pub open spec fn dec_str(n: int) -> Seq<char>
    decreases n,
{
    if n <= 9 {
        seq![digit_char(n)]
    } else {
        dec_str(n / 10).push(digit_char(n % 10))
    }
}

/// `n >= 0` cents rendered with exactly two fractional digits, e.g. `21.26`.
pub open spec fn cents_str(n: int) -> Seq<char> {
    dec_str(n / 100) + seq!['.', digit_char((n / 10) % 10), digit_char(n % 10)]
}

/// Cents rendered with an explicit sign, e.g. `+200.00`, `-3.80`, `+0.00`.
pub open spec fn signed_cents_str(n: int) -> Seq<char> {
    if n < 0 {
        seq!['-'] + cents_str(-n)
    } else {
        seq!['+'] + cents_str(n)
    }
}

/// The decimal digit character for `d`, as a one-character string slice.
fn digit_str(d: u8) -> (r: &'static str)
    requires
        d < 10,
    ensures
        r@ == seq![digit_char(d as int)],
{
    proof {
        reveal_strlit("0");
        reveal_strlit("1");
        reveal_strlit("2");
        reveal_strlit("3");
        reveal_strlit("4");
        reveal_strlit("5");
        reveal_strlit("6");
        reveal_strlit("7");
        reveal_strlit("8");
        reveal_strlit("9");
    }
    let r = match d {
        0 => "0",
        1 => "1",
        2 => "2",
        3 => "3",
        4 => "4",
        5 => "5",
        6 => "6",
        7 => "7",
        8 => "8",
        _ => "9",
    };
    proof {
        assert(r@ =~= seq![digit_char(d as int)]);
    }
    r
}

/// Renders `n` in decimal.
pub fn dec_string(n: u128) -> (r: String)
    ensures
        r@ == dec_str(n as int),
    decreases n,
{
    if n <= 9 {
        let mut s = String::new();
        s.append(digit_str(n as u8));
        proof {
            assert(s@ =~= dec_str(n as int));
        }
        s
    } else {
        let mut s = dec_string(n / 10);
        s.append(digit_str((n % 10) as u8));
        proof {
            assert(s@ =~= dec_str(n as int));
        }
        s
    }
}

/// Renders `n` cents as an unsigned decimal with two fractional digits.
pub fn cents_string(n: u128) -> (r: String)
    ensures
        r@ == cents_str(n as int),
{
    let mut s = dec_string(n / 100);
    s.append(".");
    s.append(digit_str(((n / 10) % 10) as u8));
    s.append(digit_str((n % 10) as u8));
    proof {
        reveal_strlit(".");
        assert(s@ =~= cents_str(n as int));
    }
    s
}

/// Renders `n` cents with an explicit `+` or `-` sign.
pub fn signed_cents_string(n: i128) -> (r: String)
    requires
        n > i128::MIN,
    ensures
        r@ == signed_cents_str(n as int),
{
    if n < 0 {
        let mut s = String::from_str("-");
        let m = cents_string((-n) as u128);
        s.append(m.as_str());
        proof {
            reveal_strlit("-");
            assert(s@ =~= signed_cents_str(n as int));
        }
        s
    } else {
        let mut s = String::from_str("+");
        let m = cents_string(n as u128);
        s.append(m.as_str());
        proof {
            reveal_strlit("+");
            assert(s@ =~= signed_cents_str(n as int));
        }
        s
    }
}

/// Whether `c` is an ASCII decimal digit.
pub open spec fn is_digit(c: char) -> bool {
    48 <= c as u32 <= 57
}

/// The numeric value of a digit character.
pub open spec fn digit_val(c: char) -> int {
    c as u32 - 48
}

/// Whether `c` separates the integer part from the fractional part.  The
/// export writes `,`; a `.` is accepted as the already-normalized form.
pub open spec fn is_sep(c: char) -> bool {
    c == ',' || c == '.'
}

/// Whether every character of `s` is a decimal digit.
pub open spec fn all_digits(s: Seq<char>) -> bool {
    forall|i: int| 0 <= i < s.len() ==> is_digit(#[trigger] s[i])
}

/// The value of a digit sequence read as a decimal number.
pub open spec fn digits_val(s: Seq<char>) -> int
    decreases s.len(),
{
    if s.len() == 0 {
        0
    } else {
        digits_val(s.drop_last()) * 10 + digit_val(s.last())
    }
}

/// Index of the first fractional separator in `s`, or `s.len()` if none.
pub open spec fn sep_pos(s: Seq<char>) -> int
    decreases s.len(),
{
    if s.len() == 0 {
        0
    } else if is_sep(s[0]) {
        0
    } else {
        1 + sep_pos(s.skip(1))
    }
}

/// `sep_pos` returns the first separator position: nothing before it is a
/// separator, and the character there (if any) is one.
pub proof fn lemma_sep_pos(s: Seq<char>)
    ensures
        0 <= sep_pos(s) <= s.len(),
        forall|i: int| 0 <= i < sep_pos(s) ==> !is_sep(#[trigger] s[i]),
        sep_pos(s) < s.len() ==> is_sep(s[sep_pos(s)]),
    decreases s.len(),
{
    if s.len() == 0 {
    } else if is_sep(s[0]) {
    } else {
        lemma_sep_pos(s.skip(1));
        assert forall|i: int| 0 <= i < sep_pos(s) implies !is_sep(#[trigger] s[i]) by {
            if i > 0 {
                assert(s.skip(1)[i - 1] == s[i]);
            }
        }
        if sep_pos(s) < s.len() {
            assert(s.skip(1)[sep_pos(s) - 1] == s[sep_pos(s)]);
        }
    }
}

/// The cents value of an unsigned amount field: one or more integer digits,
/// optionally followed by a separator and one or two fractional digits.
pub open spec fn unsigned_amount(s: Seq<char>) -> Option<int> {
    let k = sep_pos(s);
    if k < 1 || !all_digits(s.take(k)) {
        None
    } else if k == s.len() {
        Some(digits_val(s) * 100)
    } else {
        let frac = s.skip(k + 1);
        if frac.len() == 1 && all_digits(frac) {
            Some(digits_val(s.take(k)) * 100 + digit_val(frac[0]) * 10)
        } else if frac.len() == 2 && all_digits(frac) {
            Some(digits_val(s.take(k)) * 100 + digit_val(frac[0]) * 10 + digit_val(frac[1]))
        } else {
            None
        }
    }
}

/// The cents value of a raw amount field, sign included; `None` when the
/// field is not a decimal number of that shape.
pub open spec fn amount_of(s: Seq<char>) -> Option<int> {
    if s.len() >= 1 && (s[0] == '+' || s[0] == '-') {
        match unsigned_amount(s.skip(1)) {
            Some(v) => Some(if s[0] == '-' { -v } else { v }),
            None => None,
        }
    } else {
        unsigned_amount(s)
    }
}

/// `amount_of`, restricted to the magnitudes the report works with: the
/// parser treats an amount beyond `AMOUNT_LIMIT` cents like a malformed one.
pub open spec fn amount_cents(s: Seq<char>) -> Option<int> {
    match amount_of(s) {
        Some(v) => if -AMOUNT_LIMIT <= v <= AMOUNT_LIMIT {
            Some(v)
        } else {
            None
        },
        None => None,
    }
}

/// Parses the raw amount field of an export row into cents.
///
/// Returns `Some(v)` exactly when the field is a well-formed decimal number
/// of magnitude at most `AMOUNT_LIMIT`; the parse of the whole row treats
/// `None` as fatal.
pub fn parse_amount(s: &str) -> (r: Option<i64>)
    ensures
        match r {
            Some(v) => amount_cents(s@) == Some(v as int),
            None => amount_cents(s@) is None,
        },
{
    let n = s.unicode_len();
    if n == 0 {
        proof {
            lemma_sep_pos(s@);
        }
        return None;
    }
    let c0 = s.get_char(0);
    let signed = c0 == '+' || c0 == '-';
    let neg = c0 == '-';
    let start: usize = if signed {
        1
    } else {
        0
    };
    let ghost body = s@.skip(start as int);
    proof {
        assert(body.len() == n - start);
        assert(s@.skip(0) =~= s@);
        lemma_sep_pos(body);
    }

    // Scan the integer digits, accumulating their value while it stays in
    // range; `big` records that the true value has already passed the limit.
    let mut i: usize = start;
    let mut acc: u64 = 0;
    let mut big = false;
    loop
        invariant
            start <= i <= n,
            n == s@.len(),
            start <= 1,
            body == s@.skip(start as int),
            forall|j: int| 0 <= j < i - start ==> is_digit(#[trigger] body[j]),
            !big ==> acc == digits_val(body.take(i - start)) && acc <= AMOUNT_LIMIT as u64,
            big ==> digits_val(body.take(i - start)) > AMOUNT_LIMIT as int,
        ensures
            start <= i <= n,
            i == n || !is_digit(s@[i as int]),
            forall|j: int| 0 <= j < i - start ==> is_digit(#[trigger] body[j]),
            !big ==> acc == digits_val(body.take(i - start)) && acc <= AMOUNT_LIMIT as u64,
            big ==> digits_val(body.take(i - start)) > AMOUNT_LIMIT as int,
        decreases n - i,
    {
        if i >= n {
            break;
        }
        let c = s.get_char(i);
        let u = c as u32;
        if !(48 <= u && u <= 57) {
            break;
        }
        let d = (u - 48) as u64;
        proof {
            let p = i - start;
            assert(body[p] == s@[i as int]);
            assert(body.take(p + 1).drop_last() =~= body.take(p));
            assert(body.take(p + 1).last() == body[p]);
            assert(digits_val(body.take(p + 1)) == digits_val(body.take(p)) * 10 + digit_val(
                body[p],
            ));
        }
        if !big {
            let next = acc * 10 + d;
            if next > AMOUNT_LIMIT as u64 {
                big = true;
            } else {
                acc = next;
            }
        } else {
            proof {
                let p = i - start;
                assert(digits_val(body.take(p)) * 10 >= digits_val(body.take(p))) by {
                    assert(digits_val(body.take(p)) > 0);
                }
            }
        }
        i += 1;
    }

    // `i` is now the first position at or after `start` that is not a digit.
    let ghost k = sep_pos(body);
    proof {
        assert(forall|j: int|
            0 <= j < i - start ==> is_digit(#[trigger] body[j]) && !is_sep(body[j]));
    }

    if i == n {
        // Digits run to the end of the field: no fractional part.
        proof {
            if k < body.len() {
                assert(is_sep(body[k]));
                assert(is_digit(body[k]));
                assert(false);
            }
            assert(k == body.len());
        }
        if i == start {
            return None;
        }
        proof {
            assert(body.take(k) =~= body);
            assert(body.take(i - start) =~= body);
        }
        if big {
            proof {
                let dv = digits_val(body);
                assert(dv * 100 > AMOUNT_LIMIT as int * 100) by {
                    assert(dv > AMOUNT_LIMIT as int);
                };
            }
            return None;
        }
        let cents = acc * 100;
        if cents > AMOUNT_LIMIT as u64 {
            return None;
        }
        let v = cents as i64;
        if neg {
            Some(-v)
        } else {
            Some(v)
        }
    } else {
        let c = s.get_char(i);
        proof {
            assert(body[i - start] == s@[i as int]);
        }
        if !(c == ',' || c == '.') {
            // Not a digit and not a separator: the field is malformed.
            proof {
                if k <= i - start {
                    if k < i - start {
                        assert(is_digit(body[k]));
                    }
                    assert(false);
                }
                assert(!all_digits(body.take(k))) by {
                    assert(body.take(k)[i - start] == body[i - start]);
                }
            }
            return None;
        }
        // `i` holds the first separator.
        proof {
            if k < i - start {
                assert(is_digit(body[k]));
                assert(false);
            }
            if k > i - start {
                assert(!is_sep(body[i - start]));
                assert(false);
            }
            assert(k == i - start);
        }
        if i == start {
            return None;
        }
        proof {
            assert(body.take(k) == body.take(i - start));
        }
        let frac_len = n - i - 1;
        let ghost frac = body.skip(k + 1);
        proof {
            assert(frac.len() == frac_len);
            assert(forall|j: int| 0 <= j < frac.len() ==> frac[j] == s@[i + 1 + j]);
        }
        if frac_len < 1 || frac_len > 2 {
            return None;
        }
        let d1c = s.get_char(i + 1);
        let u1 = d1c as u32;
        if !(48 <= u1 && u1 <= 57) {
            proof {
                assert(frac[0] == s@[i as int + 1]);
            }
            return None;
        }
        let mut frac_val: u64 = ((u1 - 48) as u64) * 10;
        if frac_len == 2 {
            let d2c = s.get_char(i + 2);
            let u2 = d2c as u32;
            if !(48 <= u2 && u2 <= 57) {
                proof {
                    assert(frac[1] == s@[i as int + 2]);
                }
                return None;
            }
            frac_val = frac_val + (u2 - 48) as u64;
            proof {
                assert(frac[0] == s@[i as int + 1]);
                assert(frac[1] == s@[i as int + 2]);
            }
        } else {
            proof {
                assert(frac[0] == s@[i as int + 1]);
            }
        }
        if big {
            proof {
                let dv = digits_val(body.take(k));
                assert(dv * 100 > AMOUNT_LIMIT as int * 100) by {
                    assert(dv > AMOUNT_LIMIT as int);
                };
            }
            return None;
        }
        let cents = acc * 100 + frac_val;
        if cents > AMOUNT_LIMIT as u64 {
            return None;
        }
        let v = cents as i64;
        if neg {
            Some(-v)
        } else {
            Some(v)
        }
    }
}

} // verus!
