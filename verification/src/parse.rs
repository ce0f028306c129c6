//! Recognition of integer and float literals in raw fields.
//!
//! A field is an integer literal when it is an optional sign followed by
//! digits only; it is a float literal when it matches the grammar of
//! 64-bit float literals: an optional sign, then `inf`, `infinity` or
//! `nan` (case-insensitive), or a mantissa of digits with at most one
//! point and an optional exponent part.

use vstd::prelude::*;

verus! {

/// Whether `c` is an ASCII decimal digit.
pub open spec fn is_digit(c: char) -> bool {
    '0' as int <= c as int && c as int <= '9' as int
}

/// The numeric value of the digit `c`.
pub open spec fn digit_value(c: char) -> int {
    c as int - '0' as int
}

/// Whether every character of `s` is an ASCII decimal digit.
pub open spec fn all_digits(s: Seq<char>) -> bool {
    forall|i: int| 0 <= i < s.len() ==> is_digit(s[i])
}

/// The value of a digit string read in base 10.
pub open spec fn digits_value(s: Seq<char>) -> int
    decreases s.len(),
{
    if s.len() == 0 {
        0
    } else {
        digits_value(s.drop_last()) * 10 + digit_value(s.last())
    }
}

/// The body of a signed literal: everything after an optional sign.
pub open spec fn sign_body(s: Seq<char>) -> Seq<char> {
    if s.len() > 0 && (s[0] == '+' || s[0] == '-') {
        s.skip(1)
    } else {
        s
    }
}

/// The sign of a literal: -1 under a leading minus, else 1.
pub open spec fn sign_of(s: Seq<char>) -> int {
    if s.len() > 0 && s[0] == '-' {
        -1
    } else {
        1
    }
}

/// Whether `s` is an integer literal: an optional sign followed by at
/// least one digit, and nothing else.
pub open spec fn is_int_literal(s: Seq<char>) -> bool {
    sign_body(s).len() > 0 && all_digits(sign_body(s))
}

/// The mathematical value of the integer literal `s`.
pub open spec fn int_literal_value(s: Seq<char>) -> int {
    sign_of(s) * digits_value(sign_body(s))
}

/// What parsing `s` as a 64-bit signed integer yields: its value when `s`
/// is an integer literal within range, and nothing otherwise.
pub open spec fn spec_parse_i64(s: Seq<char>) -> Option<i64> {
    if is_int_literal(s) && i64::MIN <= int_literal_value(s) <= i64::MAX {
        Some(int_literal_value(s) as i64)
    } else {
        None
    }
}

proof fn lemma_digits_value_nonneg(s: Seq<char>)
    requires
        all_digits(s),
    ensures
        digits_value(s) >= 0,
    decreases s.len(),
{
    if s.len() > 0 {
        assert(all_digits(s.drop_last()));
        lemma_digits_value_nonneg(s.drop_last());
    }
}

/// A digit string is worth at least as much as any of its prefixes.
proof fn lemma_digits_value_mono(s: Seq<char>, k: int)
    requires
        all_digits(s),
        0 <= k <= s.len(),
    ensures
        digits_value(s.take(k)) <= digits_value(s),
    decreases s.len(),
{
    if k == s.len() {
        assert(s.take(k) == s);
    } else {
        assert(all_digits(s.drop_last()));
        assert(s.take(k) == s.drop_last().take(k));
        lemma_digits_value_mono(s.drop_last(), k);
        lemma_digits_value_nonneg(s.drop_last());
        assert(digits_value(s) >= digits_value(s.drop_last()));
    }
}

/// Once a prefix of the body is worth more than the limit, parsing cannot
/// yield an in-range integer: either a later character is not a digit, or
/// the full value is outside the range as well.
proof fn lemma_out_of_range(s: Seq<char>, upto: int, neg: bool, limit: int)
    requires
        ({
            let start = if s.len() > 0 && (s[0] == '+' || s[0] == '-') {
                1int
            } else {
                0int
            };
            start <= upto <= s.len() && all_digits(s.subrange(start, upto)) && digits_value(
                s.subrange(start, upto),
            ) > limit
        }),
        neg == (s.len() > 0 && s[0] == '-'),
        limit == if neg {
            9223372036854775808int
        } else {
            9223372036854775807int
        },
    ensures
        spec_parse_i64(s) is None,
{
    let start = if s.len() > 0 && (s[0] == '+' || s[0] == '-') {
        1int
    } else {
        0int
    };
    let body = sign_body(s);
    assert(body =~= s.subrange(start, s.len() as int));
    if is_int_literal(s) {
        assert(s.subrange(start, upto) =~= body.take(upto - start));
        lemma_digits_value_mono(body, upto - start);
        assert(digits_value(body) > limit);
        if neg {
            assert(int_literal_value(s) == -1 * digits_value(body));
        } else {
            assert(sign_of(s) == 1);
            assert(int_literal_value(s) == 1 * digits_value(body));
        }
    }
}

/// Parse a whole string as a 64-bit signed integer: an optional sign,
/// then digits only, with the value within range.
pub fn parse_i64(s: &str) -> (r: Option<i64>)
    ensures
        r == spec_parse_i64(s@),
{
    let n: usize = s.unicode_len();
    if n == 0 {
        return None;
    }
    let first = s.get_char(0);
    let neg = first == '-';
    let start: usize = if first == '-' || first == '+' {
        1
    } else {
        0
    };
    if start >= n {
        // A bare sign has an empty body.
        return None;
    }
    let ghost body = sign_body(s@);
    proof {
        assert(body =~= s@.subrange(start as int, n as int));
    }
    let limit: u64 = if neg {
        9223372036854775808
    } else {
        9223372036854775807
    };
    let mut mag: u64 = 0;
    let mut i: usize = start;
    while i < n
        invariant
            start <= i <= n,
            start < n,
            n == s@.len(),
            body == s@.subrange(start as int, n as int),
            body == sign_body(s@),
            start == if s@[0] == '-' || s@[0] == '+' {
                1int
            } else {
                0int
            },
            all_digits(s@.subrange(start as int, i as int)),
            mag == digits_value(s@.subrange(start as int, i as int)),
            mag <= limit,
            limit == if neg {
                9223372036854775808u64
            } else {
                9223372036854775807u64
            },
            neg == (s@[0] == '-'),
        decreases n - i,
    {
        let c = s.get_char(i);
        proof {
            assert(body[i - start] == s@[i as int]);
        }
        let d: u64 = match digit_of(c) {
            Some(dv) => dv as u64,
            None => {
                // A non-digit in the body: not an integer literal.
                assert(!is_digit(body[i - start]));
                return None;
            },
        };
        let ghost prefix = s@.subrange(start as int, i + 1);
        proof {
            assert(is_digit(c));
            assert(d == digit_value(c));
            assert(prefix.drop_last() =~= s@.subrange(start as int, i as int));
            assert(prefix.last() == c);
            assert(digits_value(prefix) == mag * 10 + d);
            assert(all_digits(prefix));
        }
        let stepped: Option<u64> = match mag.checked_mul(10) {
            Some(m) => m.checked_add(d),
            None => None,
        };
        let next: u64 = match stepped {
            Some(v) => v,
            None => {
                // The magnitude has outgrown 64 bits, so the value of the
                // body is out of range whatever its tail holds.
                proof {
                    lemma_out_of_range(s@, i + 1, neg, limit as int);
                }
                return None;
            },
        };
        if next > limit {
            proof {
                lemma_out_of_range(s@, i + 1, neg, limit as int);
            }
            return None;
        }
        mag = next;
        i += 1;
    }
    proof {
        assert(s@.subrange(start as int, n as int) == body);
        assert(is_int_literal(s@));
        lemma_digits_value_nonneg(body);
        if neg {
            assert(int_literal_value(s@) == -1 * digits_value(body));
        } else {
            assert(sign_of(s@) == 1);
            assert(int_literal_value(s@) == 1 * digits_value(body));
        }
    }
    if neg {
        if mag == 9223372036854775808 {
            Some(i64::MIN)
        } else {
            Some(-(mag as i64))
        }
    } else {
        Some(mag as i64)
    }
}

/// The digit value of `c`, when `c` is an ASCII decimal digit.
fn digit_of(c: char) -> (r: Option<u8>)
    ensures
        r is Some <==> is_digit(c),
        r is Some ==> r->Some_0 as int == digit_value(c),
{
    match c {
        '0' => Some(0u8),
        '1' => Some(1u8),
        '2' => Some(2u8),
        '3' => Some(3u8),
        '4' => Some(4u8),
        '5' => Some(5u8),
        '6' => Some(6u8),
        '7' => Some(7u8),
        '8' => Some(8u8),
        '9' => Some(9u8),
        _ => None,
    }
}

/// Case-insensitive match of `c` against the lowercase letter `l`.
pub open spec fn ci_eq(c: char, l: char) -> bool {
    c as int == l as int || c as int == l as int - 32
}

/// Whether `s` spells `inf`, `infinity` or `nan`, case-insensitively.
pub open spec fn is_special_float(s: Seq<char>) -> bool {
    (s.len() == 3 && ci_eq(s[0], 'i') && ci_eq(s[1], 'n') && ci_eq(s[2], 'f')) || (s.len() == 8
        && ci_eq(s[0], 'i') && ci_eq(s[1], 'n') && ci_eq(s[2], 'f') && ci_eq(s[3], 'i') && ci_eq(
        s[4],
        'n',
    ) && ci_eq(s[5], 'i') && ci_eq(s[6], 't') && ci_eq(s[7], 'y')) || (s.len() == 3 && ci_eq(
        s[0],
        'n',
    ) && ci_eq(s[1], 'a') && ci_eq(s[2], 'n'))
}

/// Whether `s` is a float mantissa: digits with at most one point, and
/// at least one digit.
pub open spec fn is_mantissa(s: Seq<char>) -> bool {
    (s.len() > 0 && all_digits(s)) || (exists|k: int|
        0 <= k < s.len() && s[k] == '.' && s.len() >= 2 && all_digits(s.take(k)) && all_digits(
            s.skip(k + 1),
        ))
}

/// Whether `s` is an unsigned float number: a mantissa, optionally
/// followed by an exponent part `e`/`E` with a signed digit string.
pub open spec fn is_float_number(s: Seq<char>) -> bool {
    is_mantissa(s) || (exists|k: int|
        0 <= k < s.len() && (s[k] == 'e' || s[k] == 'E') && is_mantissa(s.take(k)) && is_int_literal(
            s.skip(k + 1),
        ))
}

/// Whether `s` is a float literal: an optional sign, then `inf`,
/// `infinity` or `nan`, or a float number.
pub open spec fn is_float_literal(s: Seq<char>) -> bool {
    is_special_float(sign_body(s)) || is_float_number(sign_body(s))
}

/// Every character of a mantissa is a digit or the point.
proof fn lemma_mantissa_chars(s: Seq<char>, j: int)
    requires
        is_mantissa(s),
        0 <= j < s.len(),
    ensures
        is_digit(s[j]) || s[j] == '.',
{
    if s.len() > 0 && all_digits(s) {
    } else {
        let k = choose|k: int|
            0 <= k < s.len() && s[k] == '.' && s.len() >= 2 && all_digits(s.take(k)) && all_digits(
                s.skip(k + 1),
            );
        if j < k {
            assert(s.take(k)[j] == s[j]);
        } else if j > k {
            assert(s.skip(k + 1)[j - k - 1] == s[j]);
        }
    }
}

/// Turn a string into the vector of its characters.
fn chars_vec(s: &str) -> (v: Vec<char>)
    ensures
        v@ == s@,
{
    let n: usize = s.unicode_len();
    let mut v: Vec<char> = Vec::new();
    let mut i: usize = 0;
    while i < n
        invariant
            i <= n,
            n == s@.len(),
            v@ == s@.take(i as int),
        decreases n - i,
    {
        v.push(s.get_char(i));
        proof {
            assert(s@.take(i + 1) =~= s@.take(i as int).push(s@[i as int]));
        }
        i += 1;
    }
    proof {
        assert(s@.take(n as int) =~= s@);
    }
    v
}

/// Whether characters `from..to` of `v` are all digits.
fn all_digits_range(v: &Vec<char>, from: usize, to: usize) -> (r: bool)
    requires
        from <= to <= v@.len(),
    ensures
        r == all_digits(v@.subrange(from as int, to as int)),
{
    let ghost sub = v@.subrange(from as int, to as int);
    let mut i: usize = from;
    while i < to
        invariant
            from <= i <= to <= v@.len(),
            sub == v@.subrange(from as int, to as int),
            forall|j: int| from <= j < i ==> is_digit(v@[j]),
        decreases to - i,
    {
        if digit_of(v[i]).is_none() {
            proof {
                assert(sub[i - from] == v@[i as int]);
                assert(!is_digit(sub[i - from]));
            }
            return false;
        }
        proof {
            assert(is_digit(v@[i as int]));
        }
        i += 1;
    }
    proof {
        assert forall|j: int| 0 <= j < sub.len() implies is_digit(sub[j]) by {
            assert(sub[j] == v@[from + j]);
        }
    }
    true
}

/// Whether characters `from..to` of `v` form a signed digit string.
fn signed_digits_range(v: &Vec<char>, from: usize, to: usize) -> (r: bool)
    requires
        from <= to <= v@.len(),
    ensures
        r == is_int_literal(v@.subrange(from as int, to as int)),
{
    let ghost sub = v@.subrange(from as int, to as int);
    if from >= to {
        return false;
    }
    let c0 = v[from];
    let bfrom: usize = if c0 == '-' || c0 == '+' {
        from + 1
    } else {
        from
    };
    proof {
        assert(sub[0] == v@[from as int]);
        assert(sign_body(sub) =~= v@.subrange(bfrom as int, to as int));
    }
    if bfrom >= to {
        return false;
    }
    all_digits_range(v, bfrom, to)
}

/// Whether characters `from..to` of `v` form a float mantissa.
fn mantissa_range(v: &Vec<char>, from: usize, to: usize) -> (r: bool)
    requires
        from <= to <= v@.len(),
    ensures
        r == is_mantissa(v@.subrange(from as int, to as int)),
{
    let ghost sub = v@.subrange(from as int, to as int);
    if from >= to {
        return false;
    }
    let mut dot_found = false;
    let mut dot_pos: usize = 0;
    let mut i: usize = from;
    while i < to
        invariant
            from <= i <= to <= v@.len(),
            sub == v@.subrange(from as int, to as int),
            dot_found ==> from <= dot_pos < i && v@[dot_pos as int] == '.',
            forall|j: int| from <= j < i && !(dot_found && j == dot_pos) ==> is_digit(v@[j]),
            !dot_found ==> forall|j: int| from <= j < i ==> is_digit(v@[j]),
        decreases to - i,
    {
        let c = v[i];
        if digit_of(c).is_some() {
            proof {
                assert(is_digit(v@[i as int]));
            }
        } else if c == '.' {
            if dot_found {
                // A second point: no branch of the mantissa grammar fits.
                proof {
                    assert(sub[dot_pos - from] == v@[dot_pos as int]);
                    assert(sub[i - from] == v@[i as int]);
                    assert(!is_digit('.')) by {
                        assert('.' as int == 46);
                    }
                    assert forall|k: int|
                        !(0 <= k < sub.len() && sub[k] == '.' && sub.len() >= 2 && all_digits(
                            sub.take(k),
                        ) && all_digits(sub.skip(k + 1))) by {
                        if 0 <= k < sub.len() && sub[k] == '.' {
                            let p1 = dot_pos - from;
                            let p2 = i - from;
                            if k > p1 {
                                assert(sub.take(k)[p1] == sub[p1]);
                                assert(!all_digits(sub.take(k)));
                            } else {
                                assert(k <= p1 < p2);
                                assert(sub.skip(k + 1)[p2 - k - 1] == sub[p2]);
                                assert(!all_digits(sub.skip(k + 1)));
                            }
                        }
                    }
                    assert(!all_digits(sub));
                }
                return false;
            }
            dot_found = true;
            dot_pos = i;
        } else {
            // Neither digit nor point: not a mantissa.
            proof {
                let p = i - from;
                assert(sub[p] == v@[i as int]);
                assert(!is_digit(sub[p]) && sub[p] != '.');
                assert forall|k: int|
                    !(0 <= k < sub.len() && sub[k] == '.' && sub.len() >= 2 && all_digits(
                        sub.take(k),
                    ) && all_digits(sub.skip(k + 1))) by {
                    if 0 <= k < sub.len() && sub[k] == '.' {
                        if p < k {
                            assert(sub.take(k)[p] == sub[p]);
                            assert(!all_digits(sub.take(k)));
                        } else if p > k {
                            assert(sub.skip(k + 1)[p - k - 1] == sub[p]);
                            assert(!all_digits(sub.skip(k + 1)));
                        }
                    }
                }
                assert(!all_digits(sub));
            }
            return false;
        }
        i += 1;
    }
    if dot_found {
        let r = to - from >= 2;
        proof {
            let k = dot_pos - from;
            assert(sub[k] == v@[dot_pos as int]);
            if r {
                assert forall|j: int| 0 <= j < sub.take(k).len() implies #[trigger] is_digit(
                    sub.take(k)[j],
                ) by {
                    assert(sub.take(k)[j] == v@[from + j]);
                }
                assert forall|j: int| 0 <= j < sub.skip(k + 1).len() implies #[trigger] is_digit(
                    sub.skip(k + 1)[j],
                ) by {
                    assert(sub.skip(k + 1)[j] == v@[from + k + 1 + j]);
                }
                assert(is_mantissa(sub));
            } else {
                // The range is the point alone.
                assert(sub.len() == 1);
                assert(!is_digit('.')) by {
                    assert('.' as int == 46);
                }
                assert(!all_digits(sub));
            }
        }
        r
    } else {
        proof {
            assert forall|j: int| 0 <= j < sub.len() implies is_digit(sub[j]) by {
                assert(sub[j] == v@[from + j]);
            }
            assert(sub.len() > 0);
            assert(is_mantissa(sub));
        }
        true
    }
}

/// Whether characters `from..to` of `v` spell a special float word.
fn special_float_range(v: &Vec<char>, from: usize, to: usize) -> (r: bool)
    requires
        from <= to <= v@.len(),
    ensures
        r == is_special_float(v@.subrange(from as int, to as int)),
{
    let ghost sub = v@.subrange(from as int, to as int);
    let len = to - from;
    proof {
        assert forall|j: int| 0 <= j < sub.len() implies sub[j] == v@[from + j] by {}
    }
    if len == 3 {
        let a = ci_eq_char(v[from], 'i', 'I') && ci_eq_char(v[from + 1], 'n', 'N') && ci_eq_char(
            v[from + 2],
            'f',
            'F',
        );
        let b = ci_eq_char(v[from], 'n', 'N') && ci_eq_char(v[from + 1], 'a', 'A') && ci_eq_char(
            v[from + 2],
            'n',
            'N',
        );
        a || b
    } else if len == 8 {
        ci_eq_char(v[from], 'i', 'I') && ci_eq_char(v[from + 1], 'n', 'N') && ci_eq_char(
            v[from + 2],
            'f',
            'F',
        ) && ci_eq_char(v[from + 3], 'i', 'I') && ci_eq_char(v[from + 4], 'n', 'N') && ci_eq_char(
            v[from + 5],
            'i',
            'I',
        ) && ci_eq_char(v[from + 6], 't', 'T') && ci_eq_char(v[from + 7], 'y', 'Y')
    } else {
        false
    }
}

/// Case-insensitive comparison against a letter given in both cases.
fn ci_eq_char(c: char, lower: char, upper: char) -> (r: bool)
    requires
        upper as int == lower as int - 32,
    ensures
        r == ci_eq(c, lower),
{
    c == lower || c == upper
}

/// Whether characters `from..to` of `v` form an unsigned float number.
fn float_number_range(v: &Vec<char>, from: usize, to: usize) -> (r: bool)
    requires
        from <= to <= v@.len(),
    ensures
        r == is_float_number(v@.subrange(from as int, to as int)),
{
    let ghost sub = v@.subrange(from as int, to as int);
    // Find the first exponent marker, if any.
    let mut i: usize = from;
    while i < to
        invariant
            from <= i <= to <= v@.len(),
            sub == v@.subrange(from as int, to as int),
            forall|j: int| from <= j < i ==> v@[j] != 'e' && v@[j] != 'E',
        decreases to - i,
    {
        let c = v[i];
        if c == 'e' || c == 'E' {
            let m = mantissa_range(v, from, i);
            let e = signed_digits_range(v, i + 1, to);
            proof {
                let k = i - from;
                assert(sub[k] == v@[i as int]);
                assert(sub.take(k) =~= v@.subrange(from as int, i as int));
                assert(sub.skip(k + 1) =~= v@.subrange(i + 1, to as int));
                if m && e {
                    assert(is_float_number(sub));
                } else {
                    // The whole range is no mantissa: it holds the marker.
                    assert(!is_digit(sub[k]) && sub[k] != '.') by {
                        assert('e' as int == 101 && 'E' as int == 69 && '.' as int == 46);
                    }
                    if is_mantissa(sub) {
                        lemma_mantissa_chars(sub, k);
                    }
                    // Nor can a split at any other marker succeed: an
                    // earlier marker does not exist, and the mantissa of a
                    // later split would hold this one.
                    assert forall|k2: int|
                        !(0 <= k2 < sub.len() && (sub[k2] == 'e' || sub[k2] == 'E') && is_mantissa(
                            sub.take(k2),
                        ) && is_int_literal(sub.skip(k2 + 1))) by {
                        if 0 <= k2 < sub.len() && (sub[k2] == 'e' || sub[k2] == 'E') {
                            if k2 < k {
                                assert(sub[k2] == v@[from + k2]);
                            } else if k2 > k {
                                if is_mantissa(sub.take(k2)) {
                                    lemma_mantissa_chars(sub.take(k2), k);
                                    assert(sub.take(k2)[k] == sub[k]);
                                    assert(!is_digit('e') && 'e' != '.' && !is_digit('E') && 'E'
                                        != '.') by {
                                        assert('e' as int == 101 && 'E' as int == 69 && '.' as int
                                            == 46);
                                    }
                                }
                            } else {
                                assert(!(is_mantissa(sub.take(k2)) && is_int_literal(
                                    sub.skip(k2 + 1),
                                )));
                            }
                        }
                    }
                }
            }
            return m && e;
        }
        proof {
            assert(v@[i as int] != 'e' && v@[i as int] != 'E');
        }
        i += 1;
    }
    // No exponent marker anywhere: only the bare-mantissa branch can hold.
    let r = mantissa_range(v, from, to);
    proof {
        if !r {
            assert forall|k2: int|
                !(0 <= k2 < sub.len() && (sub[k2] == 'e' || sub[k2] == 'E') && is_mantissa(
                    sub.take(k2),
                ) && is_int_literal(sub.skip(k2 + 1))) by {
                if 0 <= k2 < sub.len() {
                    assert(sub[k2] == v@[from + k2]);
                }
            }
        }
    }
    r
}

/// Whether the whole string is a float literal.
pub fn is_float_text(s: &str) -> (r: bool)
    ensures
        r == is_float_literal(s@),
{
    let v = chars_vec(s);
    let n = v.len();
    let start: usize = if n > 0 && (v[0] == '-' || v[0] == '+') {
        1
    } else {
        0
    };
    proof {
        assert(sign_body(s@) =~= v@.subrange(start as int, n as int));
    }
    let sp = special_float_range(&v, start, n);
    if sp {
        return true;
    }
    float_number_range(&v, start, n)
}

} // verus!
