//! Decimal rendering and parsing of signed integers, used by the message
//! templater and the document codec. The parser accepts exactly the
//! canonical forms the renderer produces, so numbers round-trip.

use vstd::prelude::*;

verus! {

/// The character for one decimal digit.
pub open spec fn spec_digit_char(d: int) -> char {
    if d == 0 {
        '0'
    } else if d == 1 {
        '1'
    } else if d == 2 {
        '2'
    } else if d == 3 {
        '3'
    } else if d == 4 {
        '4'
    } else if d == 5 {
        '5'
    } else if d == 6 {
        '6'
    } else if d == 7 {
        '7'
    } else if d == 8 {
        '8'
    } else {
        '9'
    }
}

/// The value of a decimal digit character, or 10 for any other character.
pub open spec fn spec_digit_val(c: char) -> int {
    if c == '0' {
        0
    } else if c == '1' {
        1
    } else if c == '2' {
        2
    } else if c == '3' {
        3
    } else if c == '4' {
        4
    } else if c == '5' {
        5
    } else if c == '6' {
        6
    } else if c == '7' {
        7
    } else if c == '8' {
        8
    } else if c == '9' {
        9
    } else {
        10
    }
}

pub open spec fn spec_is_digit(c: char) -> bool {
    spec_digit_val(c) < 10
}

/// The canonical decimal form of a non-negative integer.
pub open spec fn spec_nat_dec(n: int) -> Seq<char>
    decreases n,
{
    if n <= 0 {
        seq!['0']
    } else if n < 10 {
        seq![spec_digit_char(n)]
    } else {
        spec_nat_dec(n / 10) + seq![spec_digit_char(n % 10)]
    }
}

/// The canonical decimal form of an integer, with a leading minus sign for
/// negative values.
pub open spec fn spec_i64_dec(v: int) -> Seq<char> {
    if v < 0 {
        seq!['-'] + spec_nat_dec(-v)
    } else {
        spec_nat_dec(v)
    }
}

/// The value of a digit string, most significant digit first.
pub open spec fn spec_digits_val(s: Seq<char>) -> int
    decreases s.len(),
{
    if s.len() == 0 {
        0
    } else {
        spec_digits_val(s.drop_last()) * 10 + spec_digit_val(s.last())
    }
}

pub open spec fn spec_all_digits(s: Seq<char>) -> bool {
    forall|i: int| 0 <= i < s.len() ==> spec_is_digit(#[trigger] s[i])
}

pub proof fn lemma_nat_dec_digits(n: int)
    requires
        n >= 0,
    ensures
        spec_nat_dec(n).len() >= 1,
        spec_all_digits(spec_nat_dec(n)),
    decreases n,
{
    if n >= 10 {
        lemma_nat_dec_digits(n / 10);
        let a = spec_nat_dec(n / 10);
        let d = spec_digit_char(n % 10);
        assert forall|i: int| 0 <= i < spec_nat_dec(n).len() implies spec_is_digit(
            #[trigger] spec_nat_dec(n)[i],
        ) by {
            if i < a.len() {
                assert(spec_nat_dec(n)[i] == a[i]);
            } else {
                assert(spec_nat_dec(n)[i] == d);
            }
        }
    }
}

pub proof fn lemma_digits_val_nat_dec(n: int)
    requires
        n >= 0,
    ensures
        spec_digits_val(spec_nat_dec(n)) == n,
    decreases n,
{
    if n < 10 {
        let w = spec_nat_dec(n);
        assert(spec_digits_val(Seq::<char>::empty()) == 0);
        assert(w.drop_last() =~= Seq::<char>::empty());
        assert(w.last() == if n <= 0 {
            '0'
        } else {
            spec_digit_char(n)
        });
    } else {
        lemma_digits_val_nat_dec(n / 10);
        let a = spec_nat_dec(n / 10);
        let w = spec_nat_dec(n);
        assert(w.drop_last() =~= a);
        assert(w.last() == spec_digit_char(n % 10));
        assert(spec_digit_val(spec_digit_char(n % 10)) == n % 10);
        assert(spec_digits_val(w) == (n / 10) * 10 + n % 10);
    }
}

pub proof fn lemma_nat_dec_no_leading_zero(n: int)
    requires
        n >= 1,
    ensures
        spec_nat_dec(n)[0] != '0',
    decreases n,
{
    if n >= 10 {
        lemma_nat_dec_no_leading_zero(n / 10);
        assert(spec_nat_dec(n)[0] == spec_nat_dec(n / 10)[0]) by {
            lemma_nat_dec_digits(n / 10);
        }
    }
}

pub proof fn lemma_digits_val_bounds(s: Seq<char>)
    requires
        spec_all_digits(s),
    ensures
        spec_digits_val(s) >= 0,
        s.len() >= 1 && s[0] != '0' ==> spec_digits_val(s) >= 1,
        s.len() >= 2 && s[0] != '0' ==> spec_digits_val(s) >= 10,
    decreases s.len(),
{
    if s.len() == 0 {
    } else {
        let front = s.drop_last();
        assert(spec_all_digits(front)) by {
            assert(forall|i: int| 0 <= i < front.len() ==> front[i] == s[i]);
        }
        lemma_digits_val_bounds(front);
        if s.len() >= 2 {
            assert(front[0] == s[0]);
        }
    }
}

/// A digit string in canonical form (no leading zero unless it is the one
/// digit "0") renders back to itself.
pub proof fn lemma_canonical_digits(s: Seq<char>)
    requires
        spec_all_digits(s),
        s.len() >= 1,
        s.len() > 1 ==> s[0] != '0',
    ensures
        spec_nat_dec(spec_digits_val(s)) == s,
    decreases s.len(),
{
    let v = spec_digits_val(s);
    lemma_digits_val_bounds(s);
    if s.len() == 1 {
        assert(spec_digits_val(Seq::<char>::empty()) == 0);
        assert(s.drop_last() =~= Seq::<char>::empty());
        assert(s.last() == s[0]);
        assert(v == spec_digit_val(s[0]));
        assert(spec_digit_char(spec_digit_val(s[0])) == s[0]);
        assert(spec_nat_dec(v) =~= s);
    } else {
        let front = s.drop_last();
        assert(spec_all_digits(front)) by {
            assert(forall|i: int| 0 <= i < front.len() ==> front[i] == s[i]);
        }
        assert(front[0] == s[0]);
        lemma_digits_val_bounds(front);
        lemma_canonical_digits(front);
        let fv = spec_digits_val(front);
        assert(v == fv * 10 + spec_digit_val(s.last()));
        assert(0 <= spec_digit_val(s.last()) < 10);
        assert(v / 10 == fv && v % 10 == spec_digit_val(s.last())) by (nonlinear_arith)
            requires
                v == fv * 10 + spec_digit_val(s.last()),
                0 <= spec_digit_val(s.last()) < 10,
                fv >= 0,
        ;
        assert(v >= 10);
        assert(spec_nat_dec(v) == spec_nat_dec(fv) + seq![spec_digit_char(v % 10)]);
        assert(spec_digit_char(spec_digit_val(s.last())) == s.last());
        assert(front + seq![s.last()] =~= s);
    }
}

/// Every value in i64 range tells its decimal form apart from every other's.
pub proof fn lemma_i64_dec_injective(a: int, b: int)
    requires
        spec_i64_dec(a) == spec_i64_dec(b),
    ensures
        a == b,
{
    if a >= 0 && b >= 0 {
        lemma_digits_val_nat_dec(a);
        lemma_digits_val_nat_dec(b);
    } else if a < 0 && b < 0 {
        assert(spec_i64_dec(a).skip(1) =~= spec_nat_dec(-a));
        assert(spec_i64_dec(b).skip(1) =~= spec_nat_dec(-b));
        lemma_digits_val_nat_dec(-a);
        lemma_digits_val_nat_dec(-b);
    } else {
        let neg = if a < 0 {
            a
        } else {
            b
        };
        let pos = if a < 0 {
            b
        } else {
            a
        };
        lemma_nat_dec_digits(pos);
        assert(spec_i64_dec(neg)[0] == '-');
        assert(spec_i64_dec(pos)[0] == spec_nat_dec(pos)[0]);
        assert(spec_is_digit(spec_nat_dec(pos)[0]));
        assert(!spec_is_digit('-'));
    }
}

/// The value of any prefix of a digit string never exceeds the whole value.
pub proof fn lemma_digits_val_take_le(s: Seq<char>, i: int)
    requires
        spec_all_digits(s),
        0 <= i <= s.len(),
    ensures
        spec_digits_val(s.take(i)) <= spec_digits_val(s),
    decreases s.len() - i,
{
    if i == s.len() {
        assert(s.take(i) =~= s);
    } else {
        lemma_digits_val_take_le(s, i + 1);
        let p = s.take(i);
        let q = s.take(i + 1);
        assert(q.drop_last() =~= p);
        assert(q.last() == s[i]);
        assert(spec_all_digits(p)) by {
            assert(forall|k: int| 0 <= k < p.len() ==> p[k] == s[k]);
        }
        lemma_digits_val_bounds(p);
        assert(spec_digits_val(q) == spec_digits_val(p) * 10 + spec_digit_val(s[i]));
        assert(spec_digits_val(p) * 10 >= spec_digits_val(p)) by (nonlinear_arith)
            requires
                spec_digits_val(p) >= 0,
        ;
    }
}

/// The digit character for a value below ten.
pub fn digit_char_of(d: u64) -> (c: char)
    requires
        d < 10,
    ensures
        c == spec_digit_char(d as int),
{
    if d == 0 {
        '0'
    } else if d == 1 {
        '1'
    } else if d == 2 {
        '2'
    } else if d == 3 {
        '3'
    } else if d == 4 {
        '4'
    } else if d == 5 {
        '5'
    } else if d == 6 {
        '6'
    } else if d == 7 {
        '7'
    } else if d == 8 {
        '8'
    } else {
        '9'
    }
}

/// The value of a digit character, or `None` for any other character.
pub fn digit_val_of(c: char) -> (r: Option<u64>)
    ensures
        match r {
            Some(d) => d < 10 && d as int == spec_digit_val(c),
            None => !spec_is_digit(c),
        },
{
    if c == '0' {
        Some(0)
    } else if c == '1' {
        Some(1)
    } else if c == '2' {
        Some(2)
    } else if c == '3' {
        Some(3)
    } else if c == '4' {
        Some(4)
    } else if c == '5' {
        Some(5)
    } else if c == '6' {
        Some(6)
    } else if c == '7' {
        Some(7)
    } else if c == '8' {
        Some(8)
    } else if c == '9' {
        Some(9)
    } else {
        None
    }
}

/// Append the canonical decimal form of a non-negative value.
pub fn push_u64_dec(out: &mut Vec<char>, n: u64)
    ensures
        final(out)@ == old(out)@ + spec_nat_dec(n as int),
    decreases n,
{
    if n < 10 {
        out.push(digit_char_of(n));
        assert(final(out)@ =~= old(out)@ + spec_nat_dec(n as int));
    } else {
        push_u64_dec(out, n / 10);
        out.push(digit_char_of(n % 10));
        assert(final(out)@ =~= old(out)@ + spec_nat_dec(n as int));
    }
}

/// Append the canonical decimal form of a signed value.
pub fn push_i64_dec(out: &mut Vec<char>, v: i64)
    ensures
        final(out)@ == old(out)@ + spec_i64_dec(v as int),
{
    if v >= 0 {
        push_u64_dec(out, v as u64);
    } else {
        out.push('-');
        let m: u64 = if v == i64::MIN {
            9223372036854775808u64
        } else {
            (-v) as u64
        };
        assert(m as int == -(v as int));
        push_u64_dec(out, m);
        assert(final(out)@ =~= old(out)@ + spec_i64_dec(v as int));
    }
}

/// The canonical decimal form of a signed value.
pub fn i64_to_chars(v: i64) -> (r: Vec<char>)
    ensures
        r@ == spec_i64_dec(v as int),
{
    let mut out: Vec<char> = Vec::new();
    push_i64_dec(&mut out, v);
    assert(out@ =~= spec_i64_dec(v as int));
    out
}

/// The canonical decimal form of a signed value, as a string.
pub fn i64_to_string(v: i64) -> (r: String)
    ensures
        r@ == spec_i64_dec(v as int),
{
    let cs = i64_to_chars(v);
    crate::chars::chars_to_string(&cs)
}

/// Parse the canonical decimal form of a signed 64-bit value. Exactly the
/// strings the renderer produces are accepted; everything else, leading
/// zeros and out-of-range values included, is rejected.
pub fn parse_i64_chars(s: &Vec<char>) -> (r: Option<i64>)
    ensures
        match r {
            Some(v) => s@ == spec_i64_dec(v as int),
            None => forall|v: int|
                i64::MIN <= v <= i64::MAX ==> s@ != spec_i64_dec(v),
        },
{
    let n: usize = s.len();
    if n == 0 {
        assert forall|v: int| i64::MIN <= v <= i64::MAX implies s@ != spec_i64_dec(v) by {
            if v >= 0 {
                lemma_nat_dec_digits(v);
            } else {
                lemma_nat_dec_digits(-v);
            }
        }
        return None;
    }
    let neg = s[0] == '-';
    let start: usize = if neg {
        1
    } else {
        0
    };
    let ghost digits = s@.skip(start as int);
    proof {
        assert forall|v: int|
            i64::MIN <= v <= i64::MAX && s@ == spec_i64_dec(v) implies (v < 0 <==> neg) by {
            if v >= 0 {
                lemma_nat_dec_digits(v);
                assert(s@[0] == spec_nat_dec(v)[0]);
                assert(spec_is_digit(s@[0]));
            } else {
                assert(s@[0] == '-');
            }
        }
        assert forall|v: int|
            i64::MIN <= v <= i64::MAX && s@ == spec_i64_dec(v) implies digits == spec_nat_dec(
            if v < 0 {
                -v
            } else {
                v
            },
        ) by {
            if v >= 0 {
                assert(s@.skip(0) =~= s@);
            } else {
                assert((seq!['-'] + spec_nat_dec(-v)).skip(1) =~= spec_nat_dec(-v));
            }
        }
    }
    if neg && n == 1 {
        assert forall|v: int|
            i64::MIN <= v <= i64::MAX implies s@ != spec_i64_dec(v) by {
            if s@ == spec_i64_dec(v) && v < 0 {
                lemma_nat_dec_digits(-v);
            }
        }
        return None;
    }
    if neg && s[1] == '0' {
        assert forall|v: int|
            i64::MIN <= v <= i64::MAX implies s@ != spec_i64_dec(v) by {
            if s@ == spec_i64_dec(v) && v < 0 {
                lemma_nat_dec_no_leading_zero(-v);
                assert(digits[0] == s@[1]);
            }
        }
        return None;
    }
    if !neg && s[0] == '0' && n > 1 {
        assert forall|v: int|
            i64::MIN <= v <= i64::MAX implies s@ != spec_i64_dec(v) by {
            if s@ == spec_i64_dec(v) && v >= 0 {
                if v == 0 {
                    assert(spec_nat_dec(0).len() == 1);
                } else {
                    lemma_nat_dec_no_leading_zero(v);
                }
            }
        }
        return None;
    }
    let mut acc: i64 = 0;
    let mut i: usize = start;
    proof {
        assert(digits.take(0) =~= Seq::<char>::empty());
    }
    while i < n
        invariant
            start <= i <= n,
            n == s@.len(),
            start <= 1,
            n > start,
            digits == s@.skip(start as int),
            neg == (s@[0] == '-'),
            neg ==> start == 1,
            !neg ==> start == 0,
            neg ==> digits[0] != '0',
            !neg && digits.len() > 1 ==> digits[0] != '0',
            neg ==> acc == -spec_digits_val(digits.take(i - start)),
            !neg ==> acc == spec_digits_val(digits.take(i - start)),
            spec_all_digits(digits.take(i - start)),
            forall|v: int|
                i64::MIN <= v <= i64::MAX && s@ == spec_i64_dec(v) ==> digits == spec_nat_dec(
                    if v < 0 {
                        -v
                    } else {
                        v
                    },
                ) && (v < 0 <==> neg),
        decreases n - i,
    {
        let ghost taken = digits.take(i - start);
        let ghost taken1 = digits.take(i + 1 - start);
        proof {
            assert(taken1.drop_last() =~= taken);
            assert(taken1.last() == s@[i as int]);
        }
        let c = s[i];
        match digit_val_of(c) {
            Some(d) => {
                let step: Option<i64> = match acc.checked_mul(10) {
                    Some(m) => {
                        if neg {
                            m.checked_sub(d as i64)
                        } else {
                            m.checked_add(d as i64)
                        }
                    },
                    None => None,
                };
                match step {
                    Some(a2) => {
                        acc = a2;
                        i = i + 1;
                        proof {
                            assert(spec_all_digits(taken1)) by {
                                assert(forall|k: int|
                                    0 <= k < taken1.len() - 1 ==> taken1[k] == taken[k]);
                            }
                        }
                    },
                    None => {
                        assert forall|v: int|
                            i64::MIN <= v <= i64::MAX implies s@ != spec_i64_dec(v) by {
                            if s@ == spec_i64_dec(v) {
                                let m = if v < 0 {
                                    -v
                                } else {
                                    v
                                };
                                assert(digits == spec_nat_dec(m));
                                lemma_nat_dec_digits(m);
                                lemma_digits_val_nat_dec(m);
                                assert(spec_all_digits(taken1)) by {
                                    assert(forall|k: int|
                                        0 <= k < taken1.len() ==> taken1[k] == digits[k]);
                                }
                                lemma_digits_val_take_le(digits, i + 1 - start);
                                assert(spec_digits_val(taken1) <= m);
                                assert(spec_digits_val(taken1) == spec_digits_val(taken) * 10
                                    + spec_digit_val(s@[i as int]));
                                lemma_digits_val_bounds(taken1);
                                if neg {
                                    assert(m <= 9223372036854775808);
                                    assert(-spec_digits_val(taken1) >= -9223372036854775808);
                                } else {
                                    assert(m <= 9223372036854775807);
                                }
                            }
                        }
                        return None;
                    },
                }
            },
            None => {
                assert forall|v: int|
                    i64::MIN <= v <= i64::MAX implies s@ != spec_i64_dec(v) by {
                    if s@ == spec_i64_dec(v) {
                        let m = if v < 0 {
                            -v
                        } else {
                            v
                        };
                        lemma_nat_dec_digits(m);
                        assert(spec_is_digit(digits[i - start]));
                        assert(digits[i - start] == s@[i as int]);
                    }
                }
                return None;
            },
        }
    }
    proof {
        assert(digits.take(n - start) =~= digits);
        assert(digits.len() >= 1);
        if neg {
            assert(digits[0] != '0');
            lemma_digits_val_bounds(digits);
            assert(acc <= -1);
            lemma_canonical_digits(digits);
            assert(spec_nat_dec(-(acc as int)) == digits);
            assert(spec_i64_dec(acc as int) == seq!['-'] + digits);
            assert(seq!['-'] + digits =~= s@);
        } else {
            assert(digits =~= s@);
            lemma_digits_val_bounds(digits);
            assert(acc >= 0);
            lemma_canonical_digits(digits);
            assert(spec_nat_dec(acc as int) == digits);
        }
    }
    Some(acc)
}

/// Parsing inverts rendering: the canonical form of every value in i64
/// range parses back to that value.
pub proof fn lemma_parse_of_dec(s: Seq<char>, v: int, r: Option<i64>)
    requires
        i64::MIN <= v <= i64::MAX,
        s == spec_i64_dec(v),
        match r {
            Some(w) => s == spec_i64_dec(w as int),
            None => forall|w: int| i64::MIN <= w <= i64::MAX ==> s != spec_i64_dec(w),
        },
    ensures
        r == Some(v as i64),
{
    match r {
        Some(w) => {
            lemma_i64_dec_injective(w as int, v);
        },
        None => {
            assert(s != spec_i64_dec(v));
        },
    }
}

} // verus!
