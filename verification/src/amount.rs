//! Fixed-point reading of numeric record fields.
//!
//! Record fields are stored as text. Range filters and aggregates read them
//! as signed fixed-point amounts with two decimal places (an `i64` count of
//! hundredths). A field that does not parse as a plain decimal number is
//! read as zero — the same permissive policy the filter evaluation applies
//! throughout. Fraction digits past the second are ignored, and a value
//! whose magnitude exceeds `i64::MAX` hundredths is also read as zero.

use vstd::prelude::*;

verus! {

pub open spec fn is_digit(c: char) -> bool {
    '0' as u32 <= c as u32 && c as u32 <= '9' as u32
}

pub open spec fn digit_val(c: char) -> int {
    c as u32 - '0' as u32
}

pub open spec fn all_digits(s: Seq<char>) -> bool {
    forall|i: int| 0 <= i < s.len() ==> is_digit(#[trigger] s[i])
}

/// The value of a digit string read in base 10.
pub open spec fn digits_val(s: Seq<char>) -> int
    decreases s.len(),
{
    if s.len() == 0 {
        0
    } else {
        digits_val(s.drop_last()) * 10 + digit_val(s.last())
    }
}

/// Index of the first `.` in `s`, or `s.len()` if there is none.
pub open spec fn dot_pos(s: Seq<char>) -> int
    decreases s.len(),
{
    if s.len() == 0 {
        0
    } else if s[0] == '.' {
        0
    } else {
        1 + dot_pos(s.subrange(1, s.len() as int))
    }
}

/// The digit string before the first dot of an unsigned number body.
pub open spec fn int_part(s: Seq<char>) -> Seq<char> {
    s.take(dot_pos(s))
}

/// The characters after the first dot of an unsigned number body
/// (empty if there is no dot).
pub open spec fn frac_part(s: Seq<char>) -> Seq<char> {
    if dot_pos(s) == s.len() {
        Seq::empty()
    } else {
        s.skip(dot_pos(s) + 1)
    }
}

/// An unsigned number body: digits, at most one dot, digits — with at
/// least one digit on one of the two sides.
pub open spec fn valid_unsigned(s: Seq<char>) -> bool {
    &&& all_digits(int_part(s))
    &&& all_digits(frac_part(s))
    &&& int_part(s).len() + frac_part(s).len() >= 1
}

/// Value in hundredths of an unsigned number body: the integer part scaled
/// by 100 plus the first two fraction digits.
pub open spec fn unsigned_val(s: Seq<char>) -> int {
    let fp = frac_part(s);
    let frac = if fp.len() == 0 {
        0
    } else if fp.len() == 1 {
        digit_val(fp[0]) * 10
    } else {
        digit_val(fp[0]) * 10 + digit_val(fp[1])
    };
    digits_val(int_part(s)) * 100 + frac
}

/// The body of `s` after an optional leading sign.
pub open spec fn number_body(s: Seq<char>) -> Seq<char> {
    if s.len() > 0 && (s[0] == '-' || s[0] == '+') {
        s.skip(1)
    } else {
        s
    }
}

pub open spec fn number_sign(s: Seq<char>) -> int {
    if s.len() > 0 && s[0] == '-' {
        -1
    } else {
        1
    }
}

/// A plain decimal number: an optional sign followed by a valid unsigned
/// body.
pub open spec fn valid_number(s: Seq<char>) -> bool {
    valid_unsigned(number_body(s))
}

/// The fixed-point value, in hundredths, that a numeric record field is
/// read as: the signed decimal value if the text is a plain decimal number
/// whose magnitude fits, and zero otherwise.
pub open spec fn spec_parse_amount(s: Seq<char>) -> int {
    if valid_number(s) && unsigned_val(number_body(s)) <= i64::MAX {
        number_sign(s) * unsigned_val(number_body(s))
    } else {
        0
    }
}

/// A digit string's value is never negative.
pub proof fn lemma_digits_val_nonneg(s: Seq<char>)
    requires
        all_digits(s),
    ensures
        digits_val(s) >= 0,
    decreases s.len(),
{
    if s.len() > 0 {
        assert(all_digits(s.drop_last()));
        lemma_digits_val_nonneg(s.drop_last());
    }
}

/// Reading one more digit multiplies the value by ten and adds the digit.
pub proof fn lemma_digits_val_step(s: Seq<char>, i: int)
    requires
        0 <= i < s.len(),
    ensures
        digits_val(s.take(i + 1)) == digits_val(s.take(i)) * 10 + digit_val(s[i]),
{
    assert(s.take(i + 1).drop_last() =~= s.take(i));
    assert(s.take(i + 1).last() == s[i]);
}

/// If no character of `s.take(i)` is a dot, and either `i` is the end or
/// `s[i]` is a dot, then `i` is the first dot position.
pub proof fn lemma_dot_pos_from_scan(s: Seq<char>, i: int)
    requires
        0 <= i <= s.len(),
        forall|j: int| 0 <= j < i ==> #[trigger] s[j] != '.',
        i == s.len() || s[i] == '.',
    ensures
        dot_pos(s) == i,
    decreases i,
{
    if i > 0 {
        let t = s.subrange(1, s.len() as int);
        lemma_dot_pos_from_scan(t, i - 1);
    }
}

/// The character of one decimal digit.
pub open spec fn digit_char(d: int) -> char {
    ((d + 48) as u32) as char
}

/// The decimal text of a nonnegative number.
pub open spec fn spec_nat_text(n: int) -> Seq<char>
    decreases n,
{
    if n < 10 {
        seq![digit_char(n)]
    } else {
        spec_nat_text(n / 10).push(digit_char(n % 10))
    }
}

/// The decimal text of a number: a minus sign before the magnitude when
/// it is negative.
pub open spec fn spec_int_text(v: int) -> Seq<char> {
    if v < 0 {
        seq!['-'] + spec_nat_text(-v)
    } else {
        spec_nat_text(v)
    }
}

/// Relies on `String::push`: it appends exactly the given character.
#[verifier::external_body]
fn string_push(s: &mut String, c: char)
    ensures
        final(s)@ == old(s)@.push(c),
{
    s.push(c);
}

/// Renders a number as decimal text.
pub fn int_to_text(v: i64) -> (r: String)
    ensures
        r@ == spec_int_text(v as int),
{
    let neg = v < 0;
    let mut m: u64 = if v < 0 {
        (-(v as i128)) as u64
    } else {
        v as u64
    };
    let ghost m0 = m as int;
    let mut digits: Vec<char> = Vec::new();
    loop
        invariant_except_break
            0 <= m <= m0,
            spec_nat_text(m0) == spec_nat_text(m as int) + digits@.reverse(),
        ensures
            spec_nat_text(m0) == digits@.reverse(),
        decreases m,
    {
        let d = (m % 10) as u8;
        proof {
            if m >= 10 {
                assert(spec_nat_text(m as int) == spec_nat_text(m as int / 10).push(
                    digit_char(m as int % 10),
                ));
            }
            assert(digits@.push(digit_char(m as int % 10)).reverse() =~= seq![
                digit_char(m as int % 10),
            ] + digits@.reverse());
            assert((d + 48) as char == digit_char(m as int % 10));
        }
        digits.push((d + 48) as char);
        if m < 10 {
            proof {
                assert(spec_nat_text(m as int) =~= seq![digit_char(m as int)]);
                assert(spec_nat_text(m0) =~= digits@.reverse());
            }
            break;
        }
        proof {
            assert(spec_nat_text(m as int / 10) + digits@.reverse() =~= spec_nat_text(m0));
        }
        m = m / 10;
    }
    let mut out = String::new();
    if neg {
        string_push(&mut out, '-');
    }
    let n = digits.len();
    let mut k: usize = 0;
    while k < n
        invariant
            0 <= k <= n,
            n == digits@.len(),
            out@ == (if neg {
                seq!['-']
            } else {
                Seq::<char>::empty()
            }) + digits@.reverse().take(k as int),
        decreases n - k,
    {
        proof {
            assert(digits@.reverse()[k as int] == digits@[n - 1 - k]);
            assert(digits@.reverse().take(k + 1) =~= digits@.reverse().take(k as int).push(
                digits@[n - 1 - k],
            ));
        }
        string_push(&mut out, digits[n - 1 - k]);
        proof {
            assert(out@ =~= (if neg {
                seq!['-']
            } else {
                Seq::<char>::empty()
            }) + digits@.reverse().take(k + 1));
        }
        k += 1;
    }
    proof {
        assert(digits@.reverse().take(n as int) =~= digits@.reverse());
        assert(spec_nat_text(m0) =~= digits@.reverse());
        if neg {
            assert(out@ =~= seq!['-'] + spec_nat_text(-(v as int)));
        } else {
            assert(out@ =~= spec_nat_text(v as int));
        }
    }
    out
}

/// Reads a numeric field as a fixed-point amount in hundredths.
/// Text that is not a plain decimal number of fitting magnitude reads as 0.
pub fn parse_amount(s: &str) -> (v: i64)
    ensures
        v == spec_parse_amount(s@),
{
    let n = s.unicode_len();
    if n == 0 {
        return 0;
    }
    let first = s.get_char(0);
    let (neg, start) = if first == '-' {
        (true, 1)
    } else if first == '+' {
        (false, 1)
    } else {
        (false, 0)
    };
    proof {
        assert(number_body(s@) =~= s@.skip(start as int));
        if start == 1 {
            assert(number_sign(s@) == if first == '-' { -1int } else { 1int });
        }
    }
    let body_len = n - start;

    // Find the first dot in the body.
    let mut d: usize = 0;
    let mut found_dot = false;
    while !found_dot && d < body_len
        invariant
            0 <= d <= body_len,
            body_len == n - start,
            start + body_len == n,
            n == s@.len(),
            start == 0 || start == 1,
            forall|j: int| 0 <= j < d ==> #[trigger] s@.skip(start as int)[j] != '.',
            found_dot ==> d < body_len && s@.skip(start as int)[d as int] == '.',
        decreases body_len - d + if found_dot { 0int } else { 1int },
    {
        if s.get_char(start + d) == '.' {
            found_dot = true;
        } else {
            d += 1;
        }
    }
    proof {
        lemma_dot_pos_from_scan(s@.skip(start as int), d as int);
    }

    let ghost body = s@.skip(start as int);
    let ip_len = d;

    // Validate and accumulate the integer part.
    let mut acc: i64 = 0;
    let mut overflow = false;
    let mut i: usize = 0;
    while i < ip_len
        invariant
            0 <= i <= ip_len,
            ip_len == dot_pos(body),
            ip_len <= body.len(),
            body == s@.skip(start as int),
            body == number_body(s@),
            start + body_len == n,
            body_len == body.len(),
            n == s@.len(),
            start == 0 || start == 1,
            all_digits(int_part(body).take(i as int)),
            !overflow ==> acc == digits_val(int_part(body).take(i as int)),
            overflow ==> digits_val(int_part(body).take(i as int)) > i64::MAX,
            acc >= 0,
        decreases ip_len - i,
    {
        let c = s.get_char(start + i);
        let cv = c as u32;
        if cv < '0' as u32 || cv > '9' as u32 {
            proof {
                assert(int_part(body)[i as int] == c);
                assert(!is_digit(c));
                assert(!all_digits(int_part(body)));
            }
            return 0;
        }
        let dv = (cv - '0' as u32) as i64;
        proof {
            assert(int_part(body).take(i + 1).drop_last() =~= int_part(body).take(i as int));
            lemma_digits_val_step(int_part(body), i as int);
            if !overflow {
                assert(digits_val(int_part(body).take(i as int)) >= 0);
            } else {
                lemma_digits_val_nonneg(int_part(body).take(i as int));
                assert(digits_val(int_part(body).take(i as int)) * 10 + digit_val(
                    int_part(body)[i as int],
                ) > i64::MAX) by (nonlinear_arith)
                    requires
                        digits_val(int_part(body).take(i as int)) > i64::MAX,
                        digit_val(int_part(body)[i as int]) >= 0,
                ;
            }
        }
        if !overflow {
            match acc.checked_mul(10) {
                Some(t) => {
                    match t.checked_add(dv) {
                        Some(t2) => {
                            acc = t2;
                        },
                        None => {
                            overflow = true;
                        },
                    }
                },
                None => {
                    overflow = true;
                },
            }
        }
        i += 1;
    }
    proof {
        assert(int_part(body).take(ip_len as int) =~= int_part(body));
    }

    // Validate the fraction part and take its first two digits.
    let fp_start = if ip_len < body_len {
        ip_len + 1
    } else {
        ip_len
    };
    let fp_len = body_len - fp_start;
    if ip_len == 0 && fp_len == 0 {
        return 0;
    }
    let mut frac: i64 = 0;
    let mut k: usize = 0;
    while k < fp_len
        invariant
            0 <= k <= fp_len,
            fp_len == frac_part(body).len(),
            fp_start == dot_pos(body) + if dot_pos(body) == body.len() { 0int } else { 1int },
            fp_start + fp_len == body_len,
            body == s@.skip(start as int),
            body == number_body(s@),
            start + body_len == n,
            body_len == body.len(),
            n == s@.len(),
            start == 0 || start == 1,
            all_digits(frac_part(body).take(k as int)),
            frac == {
                let fp = frac_part(body);
                if k == 0 {
                    0int
                } else if k == 1 {
                    digit_val(fp[0]) * 10
                } else {
                    digit_val(fp[0]) * 10 + digit_val(fp[1])
                }
            },
            0 <= frac <= 99,
        decreases fp_len - k,
    {
        let c = s.get_char(start + fp_start + k);
        let cv = c as u32;
        proof {
            assert(frac_part(body)[k as int] == body[fp_start + k]);
        }
        if cv < '0' as u32 || cv > '9' as u32 {
            proof {
                assert(!is_digit(frac_part(body)[k as int]));
                assert(!all_digits(frac_part(body)));
            }
            return 0;
        }
        if k == 0 {
            frac = ((cv - '0' as u32) as i64) * 10;
        } else if k == 1 {
            frac = frac + (cv - '0' as u32) as i64;
        }
        k += 1;
    }
    proof {
        assert(frac_part(body).take(fp_len as int) =~= frac_part(body));
        assert(valid_number(s@));
    }

    // Combine: integer part scaled by 100, plus the fraction hundredths.
    if overflow {
        proof {
            lemma_digits_val_nonneg(int_part(body));
            assert(digits_val(int_part(body)) * 100 >= digits_val(int_part(body))) by (nonlinear_arith)
                requires digits_val(int_part(body)) > i64::MAX;
        }
        return 0;
    }
    let scaled = match acc.checked_mul(100) {
        Some(t) => t,
        None => {
            proof {
                assert(unsigned_val(body) > i64::MAX);
            }
            return 0;
        },
    };
    let total = match scaled.checked_add(frac) {
        Some(t) => t,
        None => {
            return 0;
        },
    };
    if neg {
        -total
    } else {
        total
    }
}

} // verus!
