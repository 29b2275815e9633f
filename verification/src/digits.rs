//! Canonical decimal numerals, as the wire protocol writes the user id:
//! minus sign for negative values, no leading zeros, no `-0`.

use vstd::prelude::*;
use crate::escape::push_char;

verus! {

pub open spec fn is_dec_digit(c: char) -> bool {
    0x30 <= (c as u32) && (c as u32) <= 0x39
}

pub open spec fn digit_val(c: char) -> nat {
    ((c as u32) - 0x30) as nat
}

pub open spec fn digit_char(n: nat) -> char {
    if n == 0 {
        '0'
    } else if n == 1 {
        '1'
    } else if n == 2 {
        '2'
    } else if n == 3 {
        '3'
    } else if n == 4 {
        '4'
    } else if n == 5 {
        '5'
    } else if n == 6 {
        '6'
    } else if n == 7 {
        '7'
    } else if n == 8 {
        '8'
    } else {
        '9'
    }
}

/// Decimal digits of `n`, most significant first.
pub open spec fn dec_digits(n: nat) -> Seq<char>
    decreases n,
{
    if n < 10 {
        seq![digit_char(n)]
    } else {
        dec_digits(n / 10) + seq![digit_char(n % 10)]
    }
}

/// The signed decimal numeral of `v`.
pub open spec fn int_chars(v: int) -> Seq<char> {
    if v < 0 {
        seq!['-'] + dec_digits((-v) as nat)
    } else {
        dec_digits(v as nat)
    }
}

pub open spec fn all_dec_digits(s: Seq<char>) -> bool {
    forall|i: int| 0 <= i < s.len() ==> is_dec_digit(#[trigger] s[i])
}

/// Value of a digit string, most significant first.
pub open spec fn digits_value(s: Seq<char>) -> nat
    decreases s.len(),
{
    if s.len() == 0 {
        0
    } else {
        digits_value(s.drop_last()) * 10 + digit_val(s.last())
    }
}

/// Length of the longest digit prefix of `s`.
pub open spec fn digit_run(s: Seq<char>) -> int
    decreases s.len(),
{
    if s.len() == 0 || !is_dec_digit(s[0]) {
        0
    } else {
        1 + digit_run(s.drop_first())
    }
}

pub open spec fn pow10(n: nat) -> nat
    decreases n,
{
    if n == 0 {
        1
    } else {
        10 * pow10((n - 1) as nat)
    }
}

/// Parse a canonical signed decimal numeral that fits an `i32` from the front
/// of `s`: the value and the number of characters consumed.
pub open spec fn parse_int(s: Seq<char>) -> Option<(int, int)> {
    let neg = s.len() > 0 && s[0] == '-';
    let t = if neg {
        s.drop_first()
    } else {
        s
    };
    let k = digit_run(t);
    if k == 0 {
        None
    } else {
        let ds = t.take(k);
        if k > 1 && ds[0] == '0' {
            None
        } else if neg && digits_value(ds) == 0 {
            None
        } else {
            let v: int = if neg {
                -(digits_value(ds) as int)
            } else {
                digits_value(ds) as int
            };
            if i32::MIN <= v <= i32::MAX {
                Some((v, (if neg {
                    1int
                } else {
                    0int
                }) + k))
            } else {
                None
            }
        }
    }
}

proof fn lemma_digit_char(n: nat)
    requires
        n < 10,
    ensures
        is_dec_digit(digit_char(n)),
        digit_val(digit_char(n)) == n,
{
}

/// Shape of a canonical numeral: every character is a digit, the value reads
/// back, and there is no leading zero.
pub proof fn lemma_dec_digits(n: nat)
    ensures
        dec_digits(n).len() >= 1,
        all_dec_digits(dec_digits(n)),
        digits_value(dec_digits(n)) == n,
        n < 10 <==> dec_digits(n).len() == 1,
        n == 0 <==> dec_digits(n)[0] == '0',
    decreases n,
{
    if n < 10 {
        lemma_digit_char(n);
        assert(dec_digits(n) == seq![digit_char(n)]);
        assert(dec_digits(n).drop_last() =~= Seq::<char>::empty());
        assert(dec_digits(n).last() == digit_char(n));
        assert(digits_value(Seq::<char>::empty()) == 0);
        assert(digits_value(dec_digits(n)) == n);
    } else {
        lemma_dec_digits(n / 10);
        lemma_digit_char(n % 10);
        let a = dec_digits(n / 10);
        let d = digit_char(n % 10);
        assert(dec_digits(n) == a + seq![d]);
        assert((a + seq![d]).drop_last() =~= a);
        assert((a + seq![d]).last() == d);
        assert(digits_value(dec_digits(n)) == digits_value(a) * 10 + digit_val(d));
        assert(n / 10 * 10 + n % 10 == n) by {
            vstd::arithmetic::div_mod::lemma_fundamental_div_mod(n as int, 10);
        }
        assert(dec_digits(n)[0] == a[0]);
        assert(n / 10 > 0);
        assert(forall|i: int|
            0 <= i < dec_digits(n).len() ==> is_dec_digit(#[trigger] dec_digits(n)[i])) by {
            assert(forall|i: int| 0 <= i < a.len() ==> dec_digits(n)[i] == a[i]);
            assert(dec_digits(n)[a.len() as int] == d);
        }
    }
}

/// A digit run stops exactly at the end of the digits when what follows, if
/// anything, is not a digit.
pub proof fn lemma_digit_run_concat(d: Seq<char>, tail: Seq<char>)
    requires
        all_dec_digits(d),
        tail.len() == 0 || !is_dec_digit(tail[0]),
    ensures
        digit_run(d + tail) == d.len(),
    decreases d.len(),
{
    if d.len() == 0 {
        assert(d + tail =~= tail);
    } else {
        assert((d + tail)[0] == d[0]);
        assert((d + tail).drop_first() =~= d.drop_first() + tail);
        lemma_digit_run_concat(d.drop_first(), tail);
    }
}

pub proof fn lemma_digits_value_bound(s: Seq<char>)
    requires
        all_dec_digits(s),
    ensures
        digits_value(s) < pow10(s.len()),
    decreases s.len(),
{
    if s.len() == 0 {
    } else {
        lemma_digits_value_bound(s.drop_last());
        assert(is_dec_digit(s.last()));
        assert(digit_val(s.last()) <= 9);
    }
}

pub proof fn lemma_digits_value_lower(s: Seq<char>)
    requires
        all_dec_digits(s),
        s.len() >= 1,
        s[0] != '0',
    ensures
        digits_value(s) >= pow10((s.len() - 1) as nat),
    decreases s.len(),
{
    assert(is_dec_digit(s[0]));
    assert(digit_val(s[0]) >= 1) by {
        vstd::utf8::char_u32_cast(s[0], s[0] as u32);
        vstd::utf8::char_u32_cast('0', 0x30);
    }
    if s.len() == 1 {
        assert(digits_value(s) == digits_value(s.drop_last()) * 10 + digit_val(s.last()));
        assert(s.drop_last().len() == 0);
    } else {
        lemma_digits_value_lower(s.drop_last());
    }
}

/// Parsing inverts printing: the numeral of `v` followed by anything that does
/// not begin with a digit parses back to `v`.
pub proof fn lemma_parse_int_chars(v: int, tail: Seq<char>)
    requires
        i32::MIN <= v <= i32::MAX,
        tail.len() == 0 || !is_dec_digit(tail[0]),
    ensures
        parse_int(int_chars(v) + tail) == Some((v, int_chars(v).len() as int)),
{
    let s = int_chars(v) + tail;
    if v < 0 {
        let m = (-v) as nat;
        lemma_dec_digits(m);
        let d = dec_digits(m);
        assert(int_chars(v) == seq!['-'] + d);
        assert(s[0] == '-');
        assert(!is_dec_digit('-'));
        assert(s.len() > 0);
        assert(s.drop_first() =~= d + tail);
        lemma_digit_run_concat(d, tail);
        assert(digit_run(s.drop_first()) == d.len());
        assert((d + tail).take(d.len() as int) =~= d);
        assert(digits_value(d) == m);
        assert(m > 0);
        assert(int_chars(v).len() == 1 + d.len());
    } else {
        let m = v as nat;
        lemma_dec_digits(m);
        let d = dec_digits(m);
        assert(int_chars(v) == d);
        assert(s[0] == d[0]);
        assert(is_dec_digit(d[0]));
        assert(s[0] != '-');
        assert(s =~= d + tail);
        lemma_digit_run_concat(d, tail);
        assert(digit_run(s) == d.len());
        assert((d + tail).take(d.len() as int) =~= d);
        assert(digits_value(d) == m);
        if m == 0 {
            assert(d.len() == 1);
        }
    }
}

/// A digit character is recovered from its value.
proof fn lemma_digit_char_roundtrip(c: char)
    requires
        is_dec_digit(c),
    ensures
        digit_char(digit_val(c)) == c,
{
    let n = digit_val(c);
    assert(n < 10);
    assert(digit_char(n) as u32 == c as u32);
    vstd::utf8::char_u32_cast(c, c as u32);
    vstd::utf8::char_u32_cast(digit_char(n), c as u32);
}

/// A digit run is in bounds and consists of digits.
proof fn lemma_digit_run_prefix(s: Seq<char>)
    ensures
        0 <= digit_run(s) <= s.len(),
        all_dec_digits(s.take(digit_run(s))),
    decreases s.len(),
{
    if s.len() == 0 || !is_dec_digit(s[0]) {
        assert(s.take(0) =~= Seq::<char>::empty());
    } else {
        lemma_digit_run_prefix(s.drop_first());
        let k = digit_run(s);
        assert(k == 1 + digit_run(s.drop_first()));
        assert forall|i: int| 0 <= i < k implies is_dec_digit(#[trigger] s.take(k)[i]) by {
            if i == 0 {
                assert(s.take(k)[0] == s[0]);
            } else {
                assert(s.take(k)[i] == s.drop_first().take(k - 1)[i - 1]);
            }
        }
    }
}

/// A canonical digit string is recovered from its value.
pub proof fn lemma_canonical_digits(ds: Seq<char>)
    requires
        all_dec_digits(ds),
        ds.len() >= 1,
        ds.len() > 1 ==> ds[0] != '0',
    ensures
        dec_digits(digits_value(ds)) == ds,
    decreases ds.len(),
{
    let m = digits_value(ds);
    assert(is_dec_digit(ds.last()));
    if ds.len() == 1 {
        assert(ds.drop_last() =~= Seq::<char>::empty());
        assert(digits_value(Seq::<char>::empty()) == 0);
        assert(ds.last() == ds[0]);
        assert(m == digit_val(ds[0]));
        assert(m < 10);
        lemma_digit_char_roundtrip(ds[0]);
        assert(dec_digits(m) =~= ds);
    } else {
        let a = ds.drop_last();
        assert(a[0] == ds[0]);
        assert(all_dec_digits(a)) by {
            assert(forall|i: int| 0 <= i < a.len() ==> a[i] == ds[i]);
        }
        lemma_canonical_digits(a);
        lemma_digits_value_lower(a);
        lemma_pow10_mono(0, (a.len() - 1) as nat);
        assert(digits_value(a) >= 1);
        assert(m == digits_value(a) * 10 + digit_val(ds.last()));
        assert(m >= 10);
        assert((m as int) / 10 == digits_value(a) && (m as int) % 10 == digit_val(ds.last())) by {
            vstd::arithmetic::div_mod::lemma_fundamental_div_mod_converse(
                m as int,
                10,
                digits_value(a) as int,
                digit_val(ds.last()) as int,
            );
        }
        lemma_digit_char_roundtrip(ds.last());
        assert(dec_digits(m) == dec_digits(m / 10) + seq![digit_char(m % 10)]);
        assert(dec_digits(m) =~= ds);
    }
}

/// Parsing is sound: whatever the parser accepts is exactly the canonical
/// numeral of its value.
pub proof fn lemma_parse_int_sound(s: Seq<char>)
    requires
        parse_int(s) is Some,
    ensures
        ({
            let t = parse_int(s).unwrap();
            &&& 0 < t.1 <= s.len()
            &&& s.take(t.1) == int_chars(t.0)
        }),
{
    let neg = s.len() > 0 && s[0] == '-';
    let t = if neg {
        s.drop_first()
    } else {
        s
    };
    let k = digit_run(t);
    let ds = t.take(k);
    lemma_digit_run_prefix(t);
    lemma_canonical_digits(ds);
    if neg {
        let v = -(digits_value(ds) as int);
        assert(digits_value(ds) > 0);
        assert(int_chars(v) == seq!['-'] + dec_digits(digits_value(ds)));
        assert(s.take(1 + k) =~= seq!['-'] + t.take(k));
        assert(s.take(1 + k) =~= int_chars(v));
    } else {
        assert(s.take(k) =~= int_chars(digits_value(ds) as int));
    }
}

/// A numeral consists of visible characters only.
pub proof fn lemma_int_chars_visible(v: int)
    ensures
        crate::escape::all_visible(int_chars(v)),
{
    if v < 0 {
        lemma_dec_digits((-v) as nat);
        let d = dec_digits((-v) as nat);
        assert forall|i: int| 0 <= i < int_chars(v).len() implies 0x20 <= (
        #[trigger] int_chars(v)[i] as u32) by {
            if i == 0 {
                assert(int_chars(v)[0] == '-');
            } else {
                assert(int_chars(v)[i] == d[i - 1]);
                assert(is_dec_digit(d[i - 1]));
            }
        }
    } else {
        lemma_dec_digits(v as nat);
        assert forall|i: int| 0 <= i < int_chars(v).len() implies 0x20 <= (
        #[trigger] int_chars(v)[i] as u32) by {
            assert(is_dec_digit(int_chars(v)[i]));
        }
    }
}

// ---------------------------------------------------------------------------
// Executable side.
// ---------------------------------------------------------------------------

fn digit_char_exec(n: u64) -> (c: char)
    requires
        n < 10,
    ensures
        c == digit_char(n as nat),
{
    if n == 0 {
        '0'
    } else if n == 1 {
        '1'
    } else if n == 2 {
        '2'
    } else if n == 3 {
        '3'
    } else if n == 4 {
        '4'
    } else if n == 5 {
        '5'
    } else if n == 6 {
        '6'
    } else if n == 7 {
        '7'
    } else if n == 8 {
        '8'
    } else {
        '9'
    }
}

fn is_dec_digit_exec(c: char) -> (r: bool)
    ensures
        r == is_dec_digit(c),
{
    let u = c as u32;
    0x30 <= u && u <= 0x39
}

fn push_digits(out: &mut String, m: u64)
    ensures
        final(out)@ == old(out)@ + dec_digits(m as nat),
    decreases m,
{
    if m < 10 {
        push_char(out, digit_char_exec(m));
    } else {
        proof {
            assert(m / 10 < m) by (nonlinear_arith)
                requires
                    m >= 10,
            ;
        }
        push_digits(out, m / 10);
        push_char(out, digit_char_exec(m % 10));
        proof {
            assert(out@ =~= old(out)@ + (dec_digits((m / 10) as nat) + seq![
                digit_char((m % 10) as nat),
            ]));
        }
    }
}

/// Append the signed decimal numeral of `v` to `out`.
pub(crate) fn push_int(out: &mut String, v: i32)
    ensures
        final(out)@ == old(out)@ + int_chars(v as int),
{
    if v < 0 {
        push_char(out, '-');
        let m: u64 = (-(v as i64)) as u64;
        push_digits(out, m);
        proof {
            assert(out@ =~= old(out)@ + (seq!['-'] + dec_digits(m as nat)));
        }
    } else {
        push_digits(out, v as u64);
    }
}

/// Scan one canonical `i32` numeral out of `v`, beginning at `start`.
/// On success the value is returned with the position just past its digits.
pub(crate) fn scan_int(v: &Vec<char>, start: usize) -> (r: Option<(i32, usize)>)
    requires
        start <= v@.len(),
    ensures
        match r {
            Some(t) => {
                &&& parse_int(v@.skip(start as int)) == Some((t.0 as int, t.1 - start as int))
                &&& start < t.1 <= v@.len()
            },
            None => parse_int(v@.skip(start as int)) is None,
        },
{
    let ghost s = v@.skip(start as int);
    let neg = start < v.len() && v[start] == '-';
    let dstart = if neg {
        start + 1
    } else {
        start
    };
    let ghost t = if neg {
        s.drop_first()
    } else {
        s
    };
    proof {
        assert(t =~= v@.skip(dstart as int));
    }
    // Measure the digit run.
    let mut j = dstart;
    while j < v.len() && is_dec_digit_exec(v[j])
        invariant
            dstart <= j <= v@.len(),
            start <= dstart <= v@.len(),
            t == v@.skip(dstart as int),
            digit_run(t) == (j - dstart) + digit_run(v@.skip(j as int)),
            all_dec_digits(v@.subrange(dstart as int, j as int)),
        decreases v@.len() - j,
    {
        proof {
            let sj = v@.skip(j as int);
            assert(sj[0] == v@[j as int]);
            assert(sj.drop_first() =~= v@.skip(j + 1));
            assert(digit_run(sj) == 1 + digit_run(v@.skip(j + 1)));
            assert(v@.subrange(dstart as int, j + 1) =~= v@.subrange(dstart as int, j as int).push(
                v@[j as int],
            ));
        }
        j = j + 1;
    }
    proof {
        if j < v@.len() {
            assert(v@.skip(j as int)[0] == v@[j as int]);
            assert(digit_run(v@.skip(j as int)) == 0);
        } else {
            assert(v@.skip(j as int).len() == 0);
            assert(digit_run(v@.skip(j as int)) == 0);
        }
        assert(digit_run(t) == j - dstart);
    }
    let k = j - dstart;
    let ghost ds = t.take(k as int);
    proof {
        assert(ds =~= v@.subrange(dstart as int, j as int));
    }
    if k == 0 {
        return None;
    }
    if v[dstart] == '0' && k > 1 {
        proof {
            assert(ds[0] == v@[dstart as int]);
        }
        return None;
    }
    proof {
        assert(ds[0] == v@[dstart as int]);
    }
    if k > 10 {
        proof {
            lemma_digits_value_lower(ds);
            assert(pow10(10) == 10000000000) by {
                reveal_with_fuel(pow10, 12);
            }
            assert(ds.len() - 1 >= 10);
            assert(pow10((ds.len() - 1) as nat) >= pow10(10)) by {
                lemma_pow10_mono(10, (ds.len() - 1) as nat);
            }
            assert(digits_value(ds) >= 10000000000);
        }
        return None;
    }
    // Accumulate the value of the run.
    let mut acc: u64 = 0;
    let mut p = dstart;
    while p < j
        invariant
            dstart <= p <= j <= v@.len(),
            j - dstart <= 10,
            all_dec_digits(v@.subrange(dstart as int, j as int)),
            acc == digits_value(v@.subrange(dstart as int, p as int)),
            acc < pow10((p - dstart) as nat),
        decreases j - p,
    {
        proof {
            assert(v@.subrange(dstart as int, j as int)[p - dstart] == v@[p as int]);
            assert(is_dec_digit(v@[p as int]));
            assert(pow10((p - dstart) as nat) <= pow10(10)) by {
                lemma_pow10_mono((p - dstart) as nat, 10);
            }
            assert(pow10(10) == 10000000000) by {
                reveal_with_fuel(pow10, 12);
            }
        }
        let c = v[p];
        let d: u64 = (c as u32) as u64 - 0x30;
        proof {
            assert(d == digit_val(c));
            assert(v@.subrange(dstart as int, p + 1).drop_last() =~= v@.subrange(
                dstart as int,
                p as int,
            ));
            assert(v@.subrange(dstart as int, p + 1).last() == v@[p as int]);
        }
        acc = acc * 10 + d;
        p = p + 1;
    }
    proof {
        assert(v@.subrange(dstart as int, j as int) == ds);
        assert(acc == digits_value(ds));
    }
    if neg {
        if acc == 0 {
            return None;
        }
        if acc > 2147483648 {
            return None;
        }
        let r: i32 = (-(acc as i64)) as i32;
        proof {
            assert(r as int == -(digits_value(ds) as int));
        }
        Some((r, j))
    } else {
        if acc > 2147483647 {
            return None;
        }
        let r: i32 = acc as i32;
        Some((r, j))
    }
}

proof fn lemma_pow10_mono(a: nat, b: nat)
    requires
        a <= b,
    ensures
        pow10(a) <= pow10(b),
    decreases b,
{
    if a < b {
        lemma_pow10_mono(a, (b - 1) as nat);
        assert(pow10(b) == 10 * pow10((b - 1) as nat));
    }
}

} // verus!
