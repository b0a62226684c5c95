use vstd::prelude::*;

verus! {

/// Whether `c` is one of the ASCII digits `0` to `9`.
pub open spec fn is_digit(c: char) -> bool {
    '0' <= c && c <= '9'
}

/// The value of the digit `c`.
pub open spec fn digit_value(c: char) -> int {
    c as int - '0' as int
}

/// The character of the digit `d`, for `d` in `0..10`.
pub open spec fn digit_char(d: int) -> char {
    ((d + '0' as int) as u8) as char
}

/// The number written by the digits `s`, most significant first.
pub open spec fn digits_value(s: Seq<char>) -> int
    decreases s.len(),
{
    if s.len() == 0 {
        0
    } else {
        digits_value(s.drop_last()) * 10 + digit_value(s.last())
    }
}

/// The decimal digits of `n`, without leading zeros (`0` is written `0`).
pub open spec fn decimal(n: nat) -> Seq<char>
    decreases n,
{
    if n < 10 {
        seq![digit_char(n as int)]
    } else {
        decimal(n / 10).push(digit_char((n % 10) as int))
    }
}

/// The end of the run of digits in `s` that starts at `i`.
pub open spec fn digit_run(s: Seq<char>, i: int) -> int
    decreases s.len() - i,
{
    if 0 <= i < s.len() && is_digit(s[i]) {
        digit_run(s, i + 1)
    } else {
        i
    }
}

/// `v` when it fits in an `i32`.
pub open spec fn in_i32(v: int) -> Option<int> {
    if i32::MIN <= v <= i32::MAX {
        Some(v)
    } else {
        None
    }
}

/// The score, in hundredths of a point, that the text `s` writes as a decimal number: an
/// optional `+` or `-`; the whole points in decimal digits; optionally a `.` and fraction digits;
/// at least one digit in these two parts together; and optionally an exponent, `e` or `E` with
/// an optional sign and at least one digit (`95`, `+95`, `95.`, `.5`, `95.125`, `1e2`,
/// `9.5E+1`). The number is rounded to the nearest hundredth, halves away from zero (`95.125` is
/// `9513`, `-0.005` is `-1`). `None` when the text has another shape or the rounded score does
/// not fit in an `i32`.
pub open spec fn score_of_text(s: Seq<char>) -> Option<int> {
    let signed = s.len() > 0 && (s[0] == '-' || s[0] == '+');
    let start: int = if signed {
        1
    } else {
        0
    };
    let end = digit_run(s, start);
    let has_point = end < s.len() && s[end] == '.';
    let fstart = if has_point {
        end + 1
    } else {
        end
    };
    let fend = if has_point {
        digit_run(s, fstart)
    } else {
        end
    };
    let mantissa = s.subrange(start, end) + s.subrange(fstart, fend);
    let has_exp = fend < s.len() && (s[fend] == 'e' || s[fend] == 'E');
    let eneg = has_exp && fend + 1 < s.len() && s[fend + 1] == '-';
    let estart = if !has_exp {
        fend
    } else if fend + 1 < s.len() && (s[fend + 1] == '-' || s[fend + 1] == '+') {
        fend + 2
    } else {
        fend + 1
    };
    let eend = if has_exp {
        digit_run(s, estart)
    } else {
        fend
    };
    let exponent = if eneg {
        -digits_value(s.subrange(estart, eend))
    } else {
        digits_value(s.subrange(estart, eend))
    };
    if mantissa.len() == 0 || eend != s.len() || (has_exp && eend == estart) {
        None
    } else {
        let m = rounded_at(mantissa, (end - start) + exponent + 2);
        in_i32(
            if signed && s[0] == '-' {
                -m
            } else {
                m
            },
        )
    }
}

/// The text of a score given in hundredths of a point: the whole points in decimal, then a `.`
/// and the fraction without trailing zeros when there is one (`9500` is `95`, `8750` is `87.5`,
/// `-125` is `-1.25`).
pub open spec fn score_text(score: int) -> Seq<char> {
    let m: nat = if score < 0 {
        (-score) as nat
    } else {
        score as nat
    };
    let sign: Seq<char> = if score < 0 {
        seq!['-']
    } else {
        Seq::<char>::empty()
    };
    let frac = m % 100;
    let tail: Seq<char> = if frac == 0 {
        Seq::<char>::empty()
    } else if frac % 10 == 0 {
        seq!['.', digit_char((frac / 10) as int)]
    } else {
        seq!['.', digit_char((frac / 10) as int), digit_char((frac % 10) as int)]
    };
    sign + decimal(m / 100) + tail
}

/// The text of a score given in hundredths of a point, with exactly one decimal: the score is
/// rounded to tenths, halves to the even tenth (`8725` is `87.2`, `8775` is `87.8`, `8726` is
/// `87.3`), and a negative score keeps its sign (`-4` is `-0.0`).
pub open spec fn score_tenths_text(score: int) -> Seq<char> {
    let m: nat = if score < 0 {
        (-score) as nat
    } else {
        score as nat
    };
    let t: nat = m / 10;
    let r: nat = m % 10;
    let tenths: nat = if r > 5 || (r == 5 && t % 2 == 1) {
        t + 1
    } else {
        t
    };
    let sign: Seq<char> = if score < 0 {
        seq!['-']
    } else {
        Seq::<char>::empty()
    };
    sign + decimal(tenths / 10) + seq!['.', digit_char((tenths % 10) as int)]
}

/// A prefix of a run of digits never writes more than the whole run.
proof fn lemma_digits_value_mono(s: Seq<char>, j: int, k: int)
    requires
        0 <= j <= k <= s.len(),
        forall|i: int| 0 <= i < s.len() ==> is_digit(#[trigger] s[i]),
    ensures
        0 <= digits_value(s.subrange(0, j)) <= digits_value(s.subrange(0, k)),
    decreases k,
{
    if k > 0 {
        let j1 = if j < k {
            j
        } else {
            k - 1
        };
        lemma_digits_value_mono(s, j1, k - 1);
        assert(s.subrange(0, k).drop_last() =~= s.subrange(0, k - 1));
        assert(is_digit(s[k - 1]));
    }
}

/// The digit `d` as a one-character string.
fn digit_str(d: u64) -> (r: &'static str)
    requires
        d < 10,
    ensures
        r@ == seq![digit_char(d as int)],
{
    proof {
        reveal_strlit("0");
        reveal_strlit("1");
        reveal_strlit("2");
        reveal_strlit("3");
        reveal_strlit("4");
        reveal_strlit("5");
        reveal_strlit("6");
        reveal_strlit("7");
        reveal_strlit("8");
        reveal_strlit("9");
    }
    let r = if d == 0 {
        "0"
    } else if d == 1 {
        "1"
    } else if d == 2 {
        "2"
    } else if d == 3 {
        "3"
    } else if d == 4 {
        "4"
    } else if d == 5 {
        "5"
    } else if d == 6 {
        "6"
    } else if d == 7 {
        "7"
    } else if d == 8 {
        "8"
    } else {
        "9"
    };
    assert(r@ =~= seq![digit_char(d as int)]);
    r
}

/// Appends the decimal digits of `n` to `out`.
fn push_decimal(out: &mut String, n: u64)
    ensures
        final(out)@ == old(out)@ + decimal(n as nat),
    decreases n,
{
    if n >= 10 {
        push_decimal(out, n / 10);
        out.append(digit_str(n % 10));
        assert(old(out)@ + decimal(n as nat) =~= old(out)@ + decimal((n / 10) as nat) + seq![
            digit_char((n % 10) as int),
        ]);
    } else {
        out.append(digit_str(n));
    }
}

/// The text of a score given in hundredths of a point, as `score_text` describes it.
pub fn format_score(score: i32) -> (r: String)
    ensures
        r@ == score_text(score as int),
{
    let mut out = String::new();
    let m: u64 = if score < 0 {
        (-(score as i64)) as u64
    } else {
        score as u64
    };
    if score < 0 {
        proof {
            reveal_strlit("-");
        }
        out.append("-");
    }
    push_decimal(&mut out, m / 100);
    let frac = m % 100;
    if frac != 0 {
        proof {
            reveal_strlit(".");
        }
        out.append(".");
        out.append(digit_str(frac / 10));
        if frac % 10 != 0 {
            out.append(digit_str(frac % 10));
        }
    }
    proof {
        let sign: Seq<char> = if score < 0 {
            seq!['-']
        } else {
            Seq::<char>::empty()
        };
        let tail: Seq<char> = if frac == 0 {
            Seq::<char>::empty()
        } else if frac % 10 == 0 {
            seq!['.', digit_char((frac / 10) as int)]
        } else {
            seq!['.', digit_char((frac / 10) as int), digit_char((frac % 10) as int)]
        };
        assert(out@ =~= sign + decimal((m / 100) as nat) + tail);
    }
    out
}

/// The text of a score given in hundredths of a point with one decimal, as `score_tenths_text`
/// describes it.
pub fn format_score_tenths(score: i32) -> (r: String)
    ensures
        r@ == score_tenths_text(score as int),
{
    let mut out = String::new();
    let m: u64 = if score < 0 {
        (-(score as i64)) as u64
    } else {
        score as u64
    };
    if score < 0 {
        proof {
            reveal_strlit("-");
        }
        out.append("-");
    }
    let t = m / 10;
    let r = m % 10;
    let tenths = if r > 5 || (r == 5 && t % 2 == 1) {
        t + 1
    } else {
        t
    };
    push_decimal(&mut out, tenths / 10);
    proof {
        reveal_strlit(".");
    }
    out.append(".");
    out.append(digit_str(tenths % 10));
    proof {
        let sign: Seq<char> = if score < 0 {
            seq!['-']
        } else {
            Seq::<char>::empty()
        };
        assert(out@ =~= sign + decimal((tenths / 10) as nat) + seq![
            '.',
            digit_char((tenths % 10) as int),
        ]);
    }
    out
}

/// `10` to the power `n`.
pub open spec fn pow10(n: nat) -> nat
    decreases n,
{
    if n == 0 {
        1
    } else {
        10 * pow10((n - 1) as nat)
    }
}

/// The largest magnitude of an `i32`.
pub open spec fn magnitude_limit() -> int {
    2147483648
}

/// The whole number that the digits `d` write when the first `q` of them stand before the
/// point: the digits past the point are cut off, and zeros are appended when `q` passes the
/// last digit.
pub open spec fn kept_digits(d: Seq<char>, q: int) -> int {
    if q <= 0 {
        0
    } else if q >= d.len() {
        digits_value(d) * pow10((q - d.len()) as nat)
    } else {
        digits_value(d.subrange(0, q))
    }
}

/// `kept_digits(d, q)` rounded to the nearest whole, halves up: one more when the first digit
/// cut off is 5 or more.
pub open spec fn rounded_at(d: Seq<char>, q: int) -> int {
    kept_digits(d, q) + if 0 <= q < d.len() && digit_value(d[q]) >= 5 {
        1int
    } else {
        0int
    }
}

proof fn lemma_pow10_grows(n: nat)
    ensures
        pow10(n) >= 1,
        n >= 10 ==> pow10(n) >= 10_000_000_000,
    decreases n,
{
    if n > 0 {
        lemma_pow10_grows((n - 1) as nat);
        if n == 10 {
            reveal_with_fuel(pow10, 11);
        }
    }
}

/// A digit sequence has a non-negative value.
proof fn lemma_digits_value_nonneg(d: Seq<char>)
    requires
        forall|i: int| 0 <= i < d.len() ==> is_digit(#[trigger] d[i]),
    ensures
        digits_value(d) >= 0,
{
    lemma_digits_value_mono(d, 0, d.len() as int);
    assert(d.subrange(0, d.len() as int) =~= d);
}

/// Far enough past the last digit, the rounded value is zero for zero digits and out of the
/// range of an `i32` otherwise.
proof fn lemma_rounded_far_right(d: Seq<char>, q: int)
    requires
        q >= d.len() + 10,
        forall|i: int| 0 <= i < d.len() ==> is_digit(#[trigger] d[i]),
    ensures
        digits_value(d) == 0 ==> rounded_at(d, q) == 0,
        digits_value(d) != 0 ==> rounded_at(d, q) > magnitude_limit(),
{
    lemma_digits_value_nonneg(d);
    lemma_pow10_grows((q - d.len()) as nat);
    let p = pow10((q - d.len()) as nat);
    let v = digits_value(d);
    assert(v != 0 ==> v * p >= p) by (nonlinear_arith)
        requires
            v >= 0,
            p >= 1,
    ;
}

/// Rounds the digits `d` at position `q`, as `rounded_at` says; `None` when the result passes
/// the largest magnitude of an `i32`.
fn hundredths_of_digits(d: &Vec<char>, q: i128) -> (r: Option<u64>)
    requires
        forall|i: int| 0 <= i < d@.len() ==> is_digit(#[trigger] d@[i]),
    ensures
        match r {
            Some(v) => v == rounded_at(d@, q as int) && v <= magnitude_limit(),
            None => rounded_at(d@, q as int) > magnitude_limit(),
        },
{
    let len = d.len();
    let mut acc: u64 = 0;
    if q > 0 {
        let m: usize = if q >= len as i128 {
            len
        } else {
            q as usize
        };
        let mut k: usize = 0;
        while k < m
            invariant
                k <= m <= len == d@.len(),
                m as int == (if q >= len as i128 {
                    len as int
                } else {
                    q as int
                }),
                forall|i: int| 0 <= i < d@.len() ==> is_digit(#[trigger] d@[i]),
                acc == digits_value(d@.subrange(0, k as int)),
                acc <= magnitude_limit(),
            decreases m - k,
        {
            assert(d@.subrange(0, k + 1).drop_last() =~= d@.subrange(0, k as int));
            let next = acc * 10 + (d[k] as u32 - '0' as u32) as u64;
            if next > 2147483648 {
                proof {
                    lemma_digits_value_mono(d@, k + 1, m as int);
                    if q >= len as i128 {
                        assert(d@.subrange(0, len as int) =~= d@);
                        lemma_pow10_grows((q - len) as nat);
                        let p = pow10((q - len) as nat);
                        let v = digits_value(d@);
                        assert(v * p >= v) by (nonlinear_arith)
                            requires
                                v >= 0,
                                p >= 1,
                        ;
                    }
                }
                return None;
            }
            acc = next;
            k += 1;
        }
        assert(acc == digits_value(d@.subrange(0, m as int)));
        if q <= len as i128 {
            if q == len as i128 {
                assert(d@.subrange(0, len as int) =~= d@);
                assert(pow10(0) == 1);
                assert(digits_value(d@) * pow10(0) == digits_value(d@)) by (nonlinear_arith)
                    requires
                        pow10(0) == 1,
                ;
            }
            assert(acc == kept_digits(d@, q as int));
        }
        if q > len as i128 {
            assert(d@.subrange(0, len as int) =~= d@);
            let mut extra: i128 = q - len as i128;
            proof {
                assert(kept_digits(d@, q as int) == digits_value(d@) * pow10((q - len) as nat));
                assert(acc * pow10((q - len) as nat) == digits_value(d@) * pow10((q - len) as nat));
            }
            while extra > 0 && acc != 0
                invariant
                    q > len as i128,
                    len == d@.len(),
                    kept_digits(d@, q as int) == digits_value(d@) * pow10((q - len) as nat),
                    0 <= extra <= q - len,
                    acc <= magnitude_limit(),
                    acc * pow10(extra as nat) == digits_value(d@) * pow10((q - len) as nat),
                decreases extra,
            {
                let ghost p = pow10((extra - 1) as nat);
                proof {
                    lemma_pow10_grows((extra - 1) as nat);
                    assert(pow10(extra as nat) == 10 * p);
                    assert(acc * pow10(extra as nat) == (acc * 10) * p) by (nonlinear_arith)
                        requires
                            pow10(extra as nat) == 10 * p,
                    ;
                }
                if acc > 214748364 {
                    proof {
                        assert((acc * 10) * p >= acc * 10) by (nonlinear_arith)
                            requires
                                acc >= 0,
                                p >= 1,
                        ;
                    }
                    return None;
                }
                acc = acc * 10;
                extra = extra - 1;
            }
            proof {
                if extra == 0 {
                    assert(pow10(0) == 1);
                    assert(pow10(extra as nat) == 1);
                    assert(acc * pow10(extra as nat) == acc) by (nonlinear_arith)
                        requires
                            pow10(extra as nat) == 1,
                    ;
                } else {
                    assert(acc == 0);
                    assert(0 * pow10(extra as nat) == 0);
                }
                assert(acc == kept_digits(d@, q as int));
            }
        }
    }
    assert(acc == kept_digits(d@, q as int));
    if q >= 0 && q < len as i128 && d[q as usize] >= '5' {
        if acc >= 2147483648 {
            return None;
        }
        acc = acc + 1;
    }
    Some(acc)
}

/// What the run of digits starting at `i` covers.
proof fn lemma_digit_run(s: Seq<char>, i: int)
    requires
        0 <= i <= s.len(),
    ensures
        i <= digit_run(s, i) <= s.len(),
        forall|k: int| i <= k < digit_run(s, i) ==> is_digit(#[trigger] s[k]),
        digit_run(s, i) < s.len() ==> !is_digit(s[digit_run(s, i)]),
    decreases s.len() - i,
{
    if i < s.len() && is_digit(s[i]) {
        lemma_digit_run(s, i + 1);
    }
}

/// Appends to `d` the run of digits of `text` that starts at `from`, and returns where it ends.
fn scan_digits(text: &str, from: usize, d: &mut Vec<char>) -> (end: usize)
    requires
        from <= text@.len(),
    ensures
        end == digit_run(text@, from as int),
        from <= end <= text@.len(),
        forall|k: int| from <= k < end ==> is_digit(#[trigger] text@[k]),
        end < text@.len() ==> !is_digit(text@[end as int]),
        final(d)@ == old(d)@ + text@.subrange(from as int, end as int),
{
    let ghost s = text@;
    let ghost d0 = d@;
    proof {
        lemma_digit_run(s, from as int);
    }
    let ghost stop = digit_run(s, from as int);
    let n = text.unicode_len();
    let mut i: usize = from;
    loop
        invariant
            n == s.len(),
            s == text@,
            from <= i <= stop <= s.len(),
            stop == digit_run(s, from as int),
            forall|k: int| from <= k < stop ==> is_digit(#[trigger] s[k]),
            stop < s.len() ==> !is_digit(s[stop]),
            d@ == d0 + s.subrange(from as int, i as int),
            d0 == old(d)@,
        ensures
            i == stop,
            d@ == d0 + s.subrange(from as int, stop),
        decreases n - i,
    {
        if i >= n {
            break;
        }
        let c = text.get_char(i);
        if !is_ascii_digit(c) {
            break;
        }
        d.push(c);
        i += 1;
        assert(d@ =~= d0 + s.subrange(from as int, i as int));
    }
    i
}

/// The bound past which an exponent is not read exactly.
pub open spec fn exponent_cap() -> int {
    100_000_000_000_000_000_000
}

/// Reads the digits of an exponent starting at `from`: where they end, and their value, or
/// `None` when the value passes `exponent_cap()`.
fn scan_exponent(text: &str, from: usize) -> (r: (usize, Option<i128>))
    requires
        from <= text@.len(),
    ensures
        r.0 == digit_run(text@, from as int),
        from <= r.0 <= text@.len(),
        match r.1 {
            Some(e) => e == digits_value(text@.subrange(from as int, r.0 as int)) && 0 <= e
                <= exponent_cap(),
            None => digits_value(text@.subrange(from as int, r.0 as int)) > exponent_cap(),
        },
{
    let ghost s = text@;
    proof {
        lemma_digit_run(s, from as int);
    }
    let ghost stop = digit_run(s, from as int);
    let n = text.unicode_len();
    let mut k: usize = from;
    let mut e: i128 = 0;
    let mut sat = false;
    let ghost mut ks: int = from as int;
    loop
        invariant
            n == s.len(),
            s == text@,
            from <= ks <= k <= stop <= s.len(),
            stop == digit_run(s, from as int),
            forall|m: int| from <= m < stop ==> is_digit(#[trigger] s[m]),
            stop < s.len() ==> !is_digit(s[stop]),
            !sat ==> e == digits_value(s.subrange(from as int, k as int)),
            0 <= e <= exponent_cap(),
            sat ==> digits_value(s.subrange(from as int, ks)) > exponent_cap(),
        ensures
            k == stop,
            !sat ==> e == digits_value(s.subrange(from as int, stop)),
            sat ==> digits_value(s.subrange(from as int, ks)) > exponent_cap(),
            from <= ks <= stop,
            0 <= e <= exponent_cap(),
        decreases n - k,
    {
        if k >= n {
            break;
        }
        let c = text.get_char(k);
        if !is_ascii_digit(c) {
            break;
        }
        if !sat {
            assert(s.subrange(from as int, k + 1).drop_last() =~= s.subrange(from as int, k as int));
            let next = e * 10 + (c as u32 - '0' as u32) as i128;
            if next > 100_000_000_000_000_000_000 {
                sat = true;
                proof {
                    ks = k + 1;
                }
            } else {
                e = next;
            }
        }
        k += 1;
    }
    if sat {
        proof {
            let t = s.subrange(from as int, stop);
            lemma_digits_value_mono(t, ks - from, stop - from);
            assert(t.subrange(0, ks - from) =~= s.subrange(from as int, ks));
            assert(t.subrange(0, stop - from) =~= t);
        }
        (k, None)
    } else {
        (k, Some(e))
    }
}

/// Reads a score in hundredths of a point from `text`, as `score_of_text` describes it.
#[verifier::rlimit(50)]
pub fn parse_score(text: &str) -> (r: Option<i32>)
    ensures
        match r {
            Some(v) => score_of_text(text@) == Some(v as int),
            None => score_of_text(text@) is None,
        },
{
    let ghost s = text@;
    let n = text.unicode_len();
    let first = if n > 0 {
        text.get_char(0)
    } else {
        ' '
    };
    let signed = n > 0 && (first == '-' || first == '+');
    let negative = signed && first == '-';
    let start: usize = if signed {
        1
    } else {
        0
    };
    let mut d: Vec<char> = Vec::new();
    let end = scan_digits(text, start, &mut d);
    let whole_len = end - start;
    let has_point = end < n && text.get_char(end) == '.';
    let fstart: usize = if has_point {
        end + 1
    } else {
        end
    };
    let fend = if has_point {
        scan_digits(text, fstart, &mut d)
    } else {
        end
    };
    assert(d@ =~= s.subrange(start as int, end as int) + s.subrange(fstart as int, fend as int));
    assert forall|k: int| 0 <= k < d@.len() implies is_digit(#[trigger] d@[k]) by {
        if k < end - start {
            assert(d@[k] == s[start + k]);
        } else {
            assert(d@[k] == s[fstart + k - (end - start)]);
        }
    }
    let has_exp = fend < n && (text.get_char(fend) == 'e' || text.get_char(fend) == 'E');
    let mut eneg = false;
    let mut estart: usize = fend;
    if has_exp {
        estart = fend + 1;
        if estart < n {
            let c = text.get_char(estart);
            if c == '-' {
                eneg = true;
                estart = estart + 1;
            } else if c == '+' {
                estart = estart + 1;
            }
        }
    }
    let (eend, exp) = if has_exp {
        scan_exponent(text, estart)
    } else {
        (fend, Some(0i128))
    };
    if d.len() == 0 || eend != n || (has_exp && eend == estart) {
        return None;
    }
    let ghost exponent = if eneg {
        -digits_value(s.subrange(estart as int, eend as int))
    } else {
        digits_value(s.subrange(estart as int, eend as int))
    };
    proof {
        if !has_exp {
            assert(s.subrange(estart as int, eend as int) =~= Seq::<char>::empty());
        }
    }
    let ghost real_q = whole_len + exponent + 2;
    let q: i128 = match exp {
        None => if eneg {
            -1
        } else {
            d.len() as i128 + 12
        },
        Some(e) => if eneg {
            whole_len as i128 - e + 2
        } else {
            whole_len as i128 + e + 2
        },
    };
    proof {
        if exp is None && !eneg {
            lemma_rounded_far_right(d@, q as int);
            lemma_rounded_far_right(d@, real_q);
        }
    }
    let magnitude = match hundredths_of_digits(&d, q) {
        Some(v) => v,
        None => {
            return None;
        },
    };
    assert(magnitude == rounded_at(d@, real_q));
    let value: i64 = if negative {
        -(magnitude as i64)
    } else {
        magnitude as i64
    };
    if value < i32::MIN as i64 || value > i32::MAX as i64 {
        None
    } else {
        Some(value as i32)
    }
}

fn is_ascii_digit(c: char) -> (r: bool)
    ensures
        r == is_digit(c),
{
    '0' <= c && c <= '9'
}

/// A digit's character is a digit and reads back as that digit.
proof fn lemma_digit_char(d: int)
    requires
        0 <= d < 10,
    ensures
        is_digit(digit_char(d)),
        digit_value(digit_char(d)) == d,
{
    assert(((d + 48) as u8) as int == d + 48);
}

/// The decimal digits of `n` are digits, at least one of them, and read back as `n`.
proof fn lemma_decimal(n: nat)
    ensures
        decimal(n).len() >= 1,
        forall|k: int| 0 <= k < decimal(n).len() ==> is_digit(#[trigger] decimal(n)[k]),
        digits_value(decimal(n)) == n,
    decreases n,
{
    if n < 10 {
        lemma_digit_char(n as int);
        assert(decimal(n).drop_last() =~= Seq::<char>::empty());
        assert(digits_value(Seq::<char>::empty()) == 0);
    } else {
        lemma_decimal(n / 10);
        lemma_digit_char((n % 10) as int);
        assert(decimal(n).drop_last() =~= decimal(n / 10));
        assert(decimal(n).last() == digit_char((n % 10) as int));
        assert((n / 10) * 10 + n % 10 == n) by (nonlinear_arith);
    }
}

/// A run of digits from `i` ends at `e` when every character in between is a digit and the one
/// at `e`, if any, is not.
proof fn lemma_digit_run_ends(s: Seq<char>, i: int, e: int)
    requires
        0 <= i <= e <= s.len(),
        forall|k: int| i <= k < e ==> is_digit(#[trigger] s[k]),
        e < s.len() ==> !is_digit(s[e]),
    ensures
        digit_run(s, i) == e,
    decreases e - i,
{
    if i < e {
        lemma_digit_run_ends(s, i + 1, e);
    }
}

/// Reading back the text of a score gives the score.
pub proof fn lemma_score_text_round_trip(score: i32)
    ensures
        score_of_text(score_text(score as int)) == Some(score as int),
{
    let v = score as int;
    let m: nat = if v < 0 {
        (-v) as nat
    } else {
        v as nat
    };
    let sign: Seq<char> = if v < 0 {
        seq!['-']
    } else {
        Seq::<char>::empty()
    };
    let frac = m % 100;
    let w = decimal(m / 100);
    let digits: Seq<char> = if frac == 0 {
        Seq::<char>::empty()
    } else if frac % 10 == 0 {
        seq![digit_char((frac / 10) as int)]
    } else {
        seq![digit_char((frac / 10) as int), digit_char((frac % 10) as int)]
    };
    let tail: Seq<char> = if frac == 0 {
        Seq::<char>::empty()
    } else {
        seq!['.'] + digits
    };
    let s = score_text(v);
    assert(s =~= sign + w + tail);
    lemma_decimal(m / 100);
    lemma_digit_char((frac / 10) as int);
    lemma_digit_char((frac % 10) as int);
    let start = sign.len() as int;
    let end = start + w.len();
    assert forall|k: int| start <= k < end implies is_digit(#[trigger] s[k]) by {
        assert(s[k] == w[k - start]);
    }
    if end < s.len() {
        assert(s[end] == '.');
    }
    lemma_digit_run_ends(s, start, end);
    assert(s.subrange(start, end) =~= w);
    if v >= 0 {
        assert(s[0] == w[0]);
    } else {
        assert(s[0] == '-');
    }
    let fend = s.len() as int;
    let fstart = if frac != 0 {
        end + 1
    } else {
        end
    };
    if frac != 0 {
        assert forall|k: int| end + 1 <= k < fend implies is_digit(#[trigger] s[k]) by {
            assert(s[k] == tail[k - end]);
        }
        lemma_digit_run_ends(s, end + 1, fend);
    }
    assert(s.subrange(fstart, fend) =~= digits);
    assert(s.subrange(fend, fend) =~= Seq::<char>::empty());
    assert(digits_value(Seq::<char>::empty()) == 0);
    let d = w + digits;
    let q: int = w.len() as int + 2;
    reveal_with_fuel(pow10, 3);
    if frac == 0 {
        assert(d =~= w);
        assert(kept_digits(d, q) == digits_value(w) * 100);
        assert(kept_digits(d, q) == (m / 100) * 100 + frac);
    } else if frac % 10 == 0 {
        assert(d.drop_last() =~= w);
        assert(kept_digits(d, q) == digits_value(d) * 10);
        assert(d.last() == digit_char((frac / 10) as int));
        assert(digits_value(d) == digits_value(w) * 10 + (frac / 10) as int);
        assert(frac == (frac / 10) * 10);
        assert(kept_digits(d, q) == (m / 100) * 100 + frac);
    } else {
        assert(d.drop_last().drop_last() =~= w);
        assert(d.drop_last() =~= w.push(digit_char((frac / 10) as int)));
        assert(w.push(digit_char((frac / 10) as int)).drop_last() =~= w);
        assert(d.subrange(0, q) =~= d);
        assert(pow10(0) == 1);
        assert(digits_value(d) * pow10(0) == digits_value(d));
        assert(kept_digits(d, q) == digits_value(d));
        assert(d.last() == digit_char((frac % 10) as int));
        assert(d.drop_last().last() == digit_char((frac / 10) as int));
        assert(digits_value(d.drop_last()) == digits_value(w) * 10 + (frac / 10) as int);
        assert(digits_value(d) == digits_value(d.drop_last()) * 10 + (frac % 10) as int);
        assert(frac == (frac / 10) * 10 + frac % 10);
        assert(kept_digits(d, q) == (m / 100) * 100 + frac);
    }
    assert(rounded_at(d, q) == kept_digits(d, q));
    assert((m / 100) * 100 + frac == m);
    assert(rounded_at(d, q) == m);
    let signed = s.len() > 0 && (s[0] == '-' || s[0] == '+');
    assert(signed == (v < 0));
    assert(digit_run(s, start) == end);
    let has_point = end < s.len() && s[end] == '.';
    assert(has_point == (frac != 0));
    assert(s.subrange(start, end) + s.subrange(fstart, fend) =~= d);
    assert(d.len() > 0);
}

} // verus!
