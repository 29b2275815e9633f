//! Canonical JSON string escaping, and its exact inverse.
//!
//! Encoded strings use the two-character escapes `\" \\ \b \t \n \f \r`, the
//! six-character escape `\u00xy` (lowercase hex) for the remaining control
//! characters, and every other character stands for itself.  The parser
//! accepts exactly this canonical form, so parsing inverts escaping.

use vstd::prelude::*;

verus! {

broadcast use vstd::utf8::char_u32_cast;

// ---------------------------------------------------------------------------
// Hex digits (lowercase, as used by the `\u00xy` escape).
// ---------------------------------------------------------------------------

pub open spec fn hex_digit_lower(n: nat) -> char {
    if n == 0 {
        '0'
    } else if n == 1 {
        '1'
    } else if n == 2 {
        '2'
    } else if n == 3 {
        '3'
    } else if n == 4 {
        '4'
    } else if n == 5 {
        '5'
    } else if n == 6 {
        '6'
    } else if n == 7 {
        '7'
    } else if n == 8 {
        '8'
    } else if n == 9 {
        '9'
    } else if n == 10 {
        'a'
    } else if n == 11 {
        'b'
    } else if n == 12 {
        'c'
    } else if n == 13 {
        'd'
    } else if n == 14 {
        'e'
    } else {
        'f'
    }
}

pub open spec fn is_hex_lower(c: char) -> bool {
    (0x30 <= (c as u32) && (c as u32) <= 0x39) || (0x61 <= (c as u32) && (c as u32) <= 0x66)
}

pub open spec fn hex_val(c: char) -> nat {
    if 0x30 <= (c as u32) && (c as u32) <= 0x39 {
        ((c as u32) - 0x30) as nat
    } else {
        ((c as u32) - 0x61 + 10) as nat
    }
}

pub proof fn lemma_hex_digit_lower(n: nat)
    requires
        n < 16,
    ensures
        is_hex_lower(hex_digit_lower(n)),
        hex_val(hex_digit_lower(n)) == n,
        0x30 <= (hex_digit_lower(n) as u32),
{
}

fn hex_lower_exec(n: u32) -> (c: char)
    requires
        n < 16,
    ensures
        c == hex_digit_lower(n as nat),
{
    if n == 0 {
        '0'
    } else if n == 1 {
        '1'
    } else if n == 2 {
        '2'
    } else if n == 3 {
        '3'
    } else if n == 4 {
        '4'
    } else if n == 5 {
        '5'
    } else if n == 6 {
        '6'
    } else if n == 7 {
        '7'
    } else if n == 8 {
        '8'
    } else if n == 9 {
        '9'
    } else if n == 10 {
        'a'
    } else if n == 11 {
        'b'
    } else if n == 12 {
        'c'
    } else if n == 13 {
        'd'
    } else if n == 14 {
        'e'
    } else {
        'f'
    }
}

// ---------------------------------------------------------------------------
// Escaping, specification side.
// ---------------------------------------------------------------------------

/// The characters that escape to a two-character sequence.
pub open spec fn is_short_escape(e: char) -> bool {
    e == '"' || e == '\\' || e == 'b' || e == 't' || e == 'n' || e == 'f' || e == 'r'
}

/// The character a two-character escape stands for.
pub open spec fn short_unescape(e: char) -> char {
    if e == '"' {
        '"'
    } else if e == '\\' {
        '\\'
    } else if e == 'b' {
        '\u{8}'
    } else if e == 't' {
        '\u{9}'
    } else if e == 'n' {
        '\u{a}'
    } else if e == 'f' {
        '\u{c}'
    } else {
        '\u{d}'
    }
}

/// Control characters that have a two-character escape of their own, and are
/// therefore never written as `\u00xy`.
pub open spec fn has_short_escape(v: u32) -> bool {
    v == 0x8 || v == 0x9 || v == 0xa || v == 0xc || v == 0xd
}

/// Canonical escape of a single character.
pub open spec fn esc_char(c: char) -> Seq<char> {
    if c == '"' {
        seq!['\\', '"']
    } else if c == '\\' {
        seq!['\\', '\\']
    } else if c == '\u{8}' {
        seq!['\\', 'b']
    } else if c == '\u{9}' {
        seq!['\\', 't']
    } else if c == '\u{a}' {
        seq!['\\', 'n']
    } else if c == '\u{c}' {
        seq!['\\', 'f']
    } else if c == '\u{d}' {
        seq!['\\', 'r']
    } else if (c as u32) < 0x20 {
        seq![
            '\\',
            'u',
            '0',
            '0',
            hex_digit_lower(((c as u32) / 16) as nat),
            hex_digit_lower(((c as u32) % 16) as nat),
        ]
    } else {
        seq![c]
    }
}

/// Canonical escape of a whole string.
pub open spec fn esc_seq(s: Seq<char>) -> Seq<char>
    decreases s.len(),
{
    if s.len() == 0 {
        Seq::empty()
    } else {
        esc_char(s[0]) + esc_seq(s.drop_first())
    }
}

pub proof fn lemma_esc_seq_push(s: Seq<char>, c: char)
    ensures
        esc_seq(s.push(c)) == esc_seq(s) + esc_char(c),
    decreases s.len(),
{
    if s.len() == 0 {
        assert(s.push(c)[0] == c);
        assert(s.push(c).drop_first() =~= Seq::<char>::empty());
        assert(esc_seq(Seq::<char>::empty()) =~= Seq::<char>::empty());
        assert(esc_seq(s.push(c)) == esc_char(c) + esc_seq(Seq::<char>::empty()));
        assert(esc_seq(s.push(c)) =~= esc_seq(s) + esc_char(c));
    } else {
        assert(s.push(c)[0] == s[0]);
        assert(s.push(c).drop_first() =~= s.drop_first().push(c));
        lemma_esc_seq_push(s.drop_first(), c);
        assert(esc_seq(s.push(c)) == esc_char(s[0]) + esc_seq(s.drop_first().push(c)));
        assert(esc_seq(s.drop_first().push(c)) == esc_seq(s.drop_first()) + esc_char(c));
        assert(esc_seq(s) == esc_char(s[0]) + esc_seq(s.drop_first()));
        assert(esc_seq(s.push(c)) =~= esc_seq(s) + esc_char(c));
    }
}

/// No control character, and in particular no `'\0'`, occurs in `s`.
pub open spec fn all_visible(s: Seq<char>) -> bool {
    forall|i: int| 0 <= i < s.len() ==> 0x20 <= (#[trigger] s[i] as u32)
}

pub proof fn lemma_visible_concat(a: Seq<char>, b: Seq<char>)
    requires
        all_visible(a),
        all_visible(b),
    ensures
        all_visible(a + b),
{
    assert forall|i: int| 0 <= i < (a + b).len() implies 0x20 <= ((a + b)[i] as u32) by {
        if i < a.len() {
            assert((a + b)[i] == a[i]);
        } else {
            assert((a + b)[i] == b[i - a.len()]);
        }
    }
}

/// Every character an escape produces is visible: no control characters, and
/// in particular no `'\0'`, appear in escaped text.
pub proof fn lemma_esc_char_visible(c: char)
    ensures
        forall|j: int| 0 <= j < esc_char(c).len() ==> 0x20 <= (#[trigger] esc_char(c)[j] as u32),
{
    if c == '"' || c == '\\' || c == '\u{8}' || c == '\u{9}' || c == '\u{a}' || c == '\u{c}'
        || c == '\u{d}' {
    } else if (c as u32) < 0x20 {
        lemma_hex_digit_lower(((c as u32) / 16) as nat);
        lemma_hex_digit_lower(((c as u32) % 16) as nat);
    } else {
    }
}

pub proof fn lemma_esc_seq_visible(s: Seq<char>)
    ensures
        all_visible(esc_seq(s)),
    decreases s.len(),
{
    if s.len() == 0 {
    } else {
        lemma_esc_char_visible(s[0]);
        lemma_esc_seq_visible(s.drop_first());
        let e = esc_char(s[0]);
        let r = esc_seq(s.drop_first());
        assert(esc_seq(s) == e + r);
        assert forall|i: int| 0 <= i < esc_seq(s).len() implies 0x20 <= (esc_seq(s)[i] as u32) by {
            if i < e.len() {
                assert(esc_seq(s)[i] == e[i]);
            } else {
                assert(esc_seq(s)[i] == r[i - e.len()]);
            }
        }
    }
}

// ---------------------------------------------------------------------------
// Parsing, specification side.
// ---------------------------------------------------------------------------

/// Parse the body of a quoted string up to and including its closing quote.
/// Returns the decoded content together with the number of input characters
/// consumed.  Exactly the canonical forms produced by [`esc_seq`] are
/// accepted, so parsing is the inverse of escaping.
pub open spec fn parse_str_body(s: Seq<char>) -> Option<(Seq<char>, int)>
    decreases s.len(),
{
    if s.len() == 0 {
        None
    } else if s[0] == '"' {
        Some((Seq::empty(), 1))
    } else if s[0] == '\\' {
        if s.len() < 2 {
            None
        } else if is_short_escape(s[1]) {
            match parse_str_body(s.skip(2)) {
                Some(t) => Some((seq![short_unescape(s[1])] + t.0, t.1 + 2)),
                None => None,
            }
        } else if s[1] == 'u' {
            if s.len() < 6 {
                None
            } else if s[2] == '0' && s[3] == '0' && is_hex_lower(s[4]) && is_hex_lower(s[5]) {
                let v = (16 * hex_val(s[4]) + hex_val(s[5])) as u32;
                if v < 0x20 && !has_short_escape(v) {
                    match parse_str_body(s.skip(6)) {
                        Some(t) => Some((seq![v as char] + t.0, t.1 + 6)),
                        None => None,
                    }
                } else {
                    None
                }
            } else {
                None
            }
        } else {
            None
        }
    } else if 0x20 <= (s[0] as u32) {
        match parse_str_body(s.skip(1)) {
            Some(t) => Some((seq![s[0]] + t.0, t.1 + 1)),
            None => None,
        }
    } else {
        None
    }
}

/// Parsing inverts escaping: an escaped string, its closing quote, and any
/// remainder parse to the original string, consuming through the quote.
pub proof fn lemma_parse_escaped(s: Seq<char>, tail: Seq<char>)
    ensures
        parse_str_body(esc_seq(s) + seq!['"'] + tail) == Some((s, esc_seq(s).len() + 1int)),
    decreases s.len(),
{
    let u = esc_seq(s) + seq!['"'] + tail;
    if s.len() == 0 {
        assert(u =~= seq!['"'] + tail);
        assert(u[0] == '"');
        assert(s =~= Seq::<char>::empty());
    } else {
        let c = s[0];
        let rest = s.drop_first();
        let e = esc_char(c);
        let r = esc_seq(rest) + seq!['"'] + tail;
        assert(esc_seq(s) == e + esc_seq(rest));
        assert(u =~= e + r);
        lemma_parse_escaped(rest, tail);
        if c == '"' || c == '\\' || c == '\u{8}' || c == '\u{9}' || c == '\u{a}' || c == '\u{c}'
            || c == '\u{d}' {
            assert(u[0] == '\\');
            assert(u[1] == e[1]);
            assert(is_short_escape(e[1]));
            assert(short_unescape(e[1]) == c);
            assert(u.skip(2) =~= r);
            assert(seq![c] + rest =~= s);
        } else if (c as u32) < 0x20 {
            let cv = c as u32;
            let h1 = hex_digit_lower((cv / 16) as nat);
            let h2 = hex_digit_lower((cv % 16) as nat);
            lemma_hex_digit_lower((cv / 16) as nat);
            lemma_hex_digit_lower((cv % 16) as nat);
            assert(u[0] == '\\');
            assert(u[1] == 'u');
            assert(u[2] == '0');
            assert(u[3] == '0');
            assert(u[4] == h1);
            assert(u[5] == h2);
            assert(16 * hex_val(h1) + hex_val(h2) == 16 * (cv / 16) + (cv % 16));
            assert(16 * ((cv as int) / 16) + ((cv as int) % 16) == cv as int) by {
                vstd::arithmetic::div_mod::lemma_fundamental_div_mod(cv as int, 16);
            }
            let v = (16 * hex_val(h1) + hex_val(h2)) as u32;
            assert(v == cv);
            assert(!has_short_escape(v)) by {
                vstd::utf8::char_u32_cast(c, cv);
                vstd::utf8::char_u32_cast('\u{8}', 0x8);
                vstd::utf8::char_u32_cast('\u{9}', 0x9);
                vstd::utf8::char_u32_cast('\u{a}', 0xa);
                vstd::utf8::char_u32_cast('\u{c}', 0xc);
                vstd::utf8::char_u32_cast('\u{d}', 0xd);
            }
            assert(v as char == c) by {
                vstd::utf8::char_u32_cast(c, v);
            }
            assert(u.skip(6) =~= r);
            assert(seq![c] + rest =~= s);
        } else {
            assert(u[0] == c);
            assert(u[0] != '"' && u[0] != '\\');
            assert(u.skip(1) =~= r);
            assert(seq![c] + rest =~= s);
        }
    }
}

/// A hex digit character is recovered from its value.
proof fn lemma_hex_char_roundtrip(c: char)
    requires
        is_hex_lower(c),
    ensures
        hex_digit_lower(hex_val(c)) == c,
{
    let n = hex_val(c);
    assert(n < 16);
    assert(hex_digit_lower(n) as u32 == c as u32);
    vstd::utf8::char_u32_cast(c, c as u32);
    vstd::utf8::char_u32_cast(hex_digit_lower(n), c as u32);
}

/// Parsing is sound: whatever the parser accepts is exactly the canonical
/// escape of its content, closed by the quote — nothing non-canonical gets
/// in.
pub proof fn lemma_parse_sound(s: Seq<char>)
    requires
        parse_str_body(s) is Some,
    ensures
        ({
            let t = parse_str_body(s).unwrap();
            &&& 0 < t.1 <= s.len()
            &&& s.take(t.1) == esc_seq(t.0) + seq!['"']
        }),
    decreases s.len(),
{
    let t = parse_str_body(s).unwrap();
    if s[0] == '"' {
        assert(esc_seq(Seq::<char>::empty()) =~= Seq::<char>::empty());
        assert(s.take(1) =~= esc_seq(t.0) + seq!['"']);
    } else if s[0] == '\\' {
        let e = s[1];
        if is_short_escape(e) {
            lemma_parse_sound(s.skip(2));
            let t2 = parse_str_body(s.skip(2)).unwrap();
            let d = short_unescape(e);
            assert(esc_char(d) =~= seq!['\\', e]);
            assert(t.0[0] == d);
            assert(t.0.drop_first() =~= t2.0);
            assert(esc_seq(t.0) == esc_char(d) + esc_seq(t2.0));
            assert(s.take(t.1) =~= seq!['\\', e] + s.skip(2).take(t2.1));
            assert(s.take(t.1) =~= esc_seq(t.0) + seq!['"']);
        } else {
            // The `\u00xy` escape.
            let v = (16 * hex_val(s[4]) + hex_val(s[5])) as u32;
            let c = v as char;
            assert((c as u32) == v);
            lemma_parse_sound(s.skip(6));
            let t2 = parse_str_body(s.skip(6)).unwrap();
            assert(c != '"' && c != '\\' && c != '\u{8}' && c != '\u{9}' && c != '\u{a}' && c
                != '\u{c}' && c != '\u{d}') by {
                vstd::utf8::char_u32_cast('"', 0x22);
                vstd::utf8::char_u32_cast('\\', 0x5c);
                vstd::utf8::char_u32_cast('\u{8}', 0x8);
                vstd::utf8::char_u32_cast('\u{9}', 0x9);
                vstd::utf8::char_u32_cast('\u{a}', 0xa);
                vstd::utf8::char_u32_cast('\u{c}', 0xc);
                vstd::utf8::char_u32_cast('\u{d}', 0xd);
            }
            assert((v as int) / 16 == hex_val(s[4]) && (v as int) % 16 == hex_val(s[5])) by {
                vstd::arithmetic::div_mod::lemma_fundamental_div_mod_converse(
                    v as int,
                    16,
                    hex_val(s[4]) as int,
                    hex_val(s[5]) as int,
                );
            }
            lemma_hex_char_roundtrip(s[4]);
            lemma_hex_char_roundtrip(s[5]);
            assert(esc_char(c) =~= seq!['\\', 'u', '0', '0', s[4], s[5]]);
            assert(t.0[0] == c);
            assert(t.0.drop_first() =~= t2.0);
            assert(esc_seq(t.0) == esc_char(c) + esc_seq(t2.0));
            assert(s.take(t.1) =~= seq!['\\', 'u', '0', '0', s[4], s[5]] + s.skip(6).take(t2.1));
            assert(s.take(t.1) =~= esc_seq(t.0) + seq!['"']);
        }
    } else {
        let c = s[0];
        lemma_parse_sound(s.skip(1));
        let t2 = parse_str_body(s.skip(1)).unwrap();
        assert(c != '\u{8}' && c != '\u{9}' && c != '\u{a}' && c != '\u{c}' && c != '\u{d}') by {
            vstd::utf8::char_u32_cast('\u{8}', 0x8);
            vstd::utf8::char_u32_cast('\u{9}', 0x9);
            vstd::utf8::char_u32_cast('\u{a}', 0xa);
            vstd::utf8::char_u32_cast('\u{c}', 0xc);
            vstd::utf8::char_u32_cast('\u{d}', 0xd);
        }
        assert(esc_char(c) =~= seq![c]);
        assert(t.0[0] == c);
        assert(t.0.drop_first() =~= t2.0);
        assert(esc_seq(t.0) == esc_char(c) + esc_seq(t2.0));
        assert(s.take(t.1) =~= seq![c] + s.skip(1).take(t2.1));
        assert(s.take(t.1) =~= esc_seq(t.0) + seq!['"']);
    }
}

// ---------------------------------------------------------------------------
// Executable side.
// ---------------------------------------------------------------------------

/// Relies on String::push: appends the given character to the end of the
/// string, leaving the rest unchanged.
#[verifier::external_body]
pub(crate) fn push_char(out: &mut String, c: char)
    ensures
        final(out)@ == old(out)@ + seq![c],
{
    out.push(c);
}

/// Relies on char::from_u32: yields the character with the given scalar
/// value, and None exactly when the value is out of the Unicode scalar range.
pub assume_specification[ char::from_u32 ](v: u32) -> (r: Option<char>)
    ensures
        vstd::utf8::is_scalar(v) ==> r == Some(v as char),
        !vstd::utf8::is_scalar(v) ==> r is None,
;

/// Append the canonical escape of `s` to `out`.
pub(crate) fn push_escaped(out: &mut String, s: &str)
    ensures
        final(out)@ == old(out)@ + esc_seq(s@),
{
    let n = s.unicode_len();
    let mut i: usize = 0;
    while i < n
        invariant
            i <= n,
            n == s@.len(),
            out@ == old(out)@ + esc_seq(s@.take(i as int)),
        decreases n - i,
    {
        let ghost pre = out@;
        let c = s.get_char(i);
        let u = c as u32;
        if c == '"' {
            push_char(out, '\\');
            push_char(out, '"');
        } else if c == '\\' {
            push_char(out, '\\');
            push_char(out, '\\');
        } else if u == 0x8 {
            push_char(out, '\\');
            push_char(out, 'b');
        } else if u == 0x9 {
            push_char(out, '\\');
            push_char(out, 't');
        } else if u == 0xa {
            push_char(out, '\\');
            push_char(out, 'n');
        } else if u == 0xc {
            push_char(out, '\\');
            push_char(out, 'f');
        } else if u == 0xd {
            push_char(out, '\\');
            push_char(out, 'r');
        } else if u < 0x20 {
            push_char(out, '\\');
            push_char(out, 'u');
            push_char(out, '0');
            push_char(out, '0');
            push_char(out, hex_lower_exec(u / 16));
            push_char(out, hex_lower_exec(u % 16));
        } else {
            push_char(out, c);
        }
        proof {
            assert(out@ =~= pre + esc_char(c));
            assert(s@.take(i + 1) =~= s@.take(i as int).push(s@[i as int]));
            lemma_esc_seq_push(s@.take(i as int), s@[i as int]);
            assert(out@ =~= old(out)@ + esc_seq(s@.take(i + 1)));
        }
        i = i + 1;
    }
    proof {
        assert(s@.take(n as int) =~= s@);
    }
}

fn is_hex_lower_exec(c: char) -> (r: bool)
    ensures
        r == is_hex_lower(c),
{
    let u = c as u32;
    (0x30 <= u && u <= 0x39) || (0x61 <= u && u <= 0x66)
}

fn hex_val_exec(c: char) -> (r: u32)
    requires
        is_hex_lower(c),
    ensures
        r == hex_val(c),
        r < 16,
{
    let u = c as u32;
    if 0x30 <= u && u <= 0x39 {
        u - 0x30
    } else {
        u - 0x61 + 10
    }
}

/// Scan one quoted-string body out of `v`, beginning at `start` (just after
/// the opening quote).  On success the decoded content is returned together
/// with the position just past the closing quote.
pub(crate) fn scan_string(v: &Vec<char>, start: usize) -> (r: Option<(String, usize)>)
    requires
        start <= v@.len(),
    ensures
        match r {
            Some(t) => {
                &&& parse_str_body(v@.skip(start as int)) == Some((t.0@, t.1 - start as int))
                &&& start < t.1 <= v@.len()
            },
            None => parse_str_body(v@.skip(start as int)) is None,
        },
{
    let mut out = String::new();
    let mut i: usize = start;
    loop
        invariant
            start <= i <= v@.len(),
            parse_str_body(v@.skip(start as int)) == (match parse_str_body(v@.skip(i as int)) {
                Some(t) => Some((out@ + t.0, (i - start) + t.1)),
                None => None::<(Seq<char>, int)>,
            }),
        decreases v@.len() - i,
    {
        if i >= v.len() {
            proof {
                assert(v@.skip(i as int).len() == 0);
            }
            return None;
        }
        let ghost pre = out@;
        let ghost si = v@.skip(i as int);
        proof {
            assert(si[0] == v@[i as int]);
        }
        let c = v[i];
        if c == '"' {
            proof {
                assert(parse_str_body(si) == Some((Seq::<char>::empty(), 1int)));
                assert(pre + Seq::<char>::empty() =~= pre);
            }
            return Some((out, i + 1));
        } else if c == '\\' {
            if v.len() - i < 2 {
                proof {
                    assert(si.len() < 2);
                }
                return None;
            }
            proof {
                assert(si[1] == v@[i + 1]);
            }
            let e = v[i + 1];
            if e == '"' || e == '\\' || e == 'b' || e == 't' || e == 'n' || e == 'f' || e == 'r' {
                let d = if e == 'b' {
                    '\u{8}'
                } else if e == 't' {
                    '\u{9}'
                } else if e == 'n' {
                    '\u{a}'
                } else if e == 'f' {
                    '\u{c}'
                } else if e == 'r' {
                    '\u{d}'
                } else {
                    e
                };
                proof {
                    assert(is_short_escape(si[1]));
                    assert(d == short_unescape(si[1]));
                    assert(si.skip(2) =~= v@.skip(i + 2));
                }
                push_char(&mut out, d);
                proof {
                    if parse_str_body(v@.skip(i + 2)) is Some {
                        let t = parse_str_body(v@.skip(i + 2)).unwrap();
                        assert(parse_str_body(si) == Some((seq![d] + t.0, t.1 + 2)));
                        assert(pre + (seq![d] + t.0) =~= out@ + t.0);
                    }
                }
                i = i + 2;
            } else if e == 'u' {
                if v.len() - i < 6 {
                    proof {
                        assert(si.len() < 6);
                    }
                    return None;
                }
                proof {
                    assert(si[2] == v@[i + 2]);
                    assert(si[3] == v@[i + 3]);
                    assert(si[4] == v@[i + 4]);
                    assert(si[5] == v@[i + 5]);
                }
                let h1 = v[i + 4];
                let h2 = v[i + 5];
                if v[i + 2] == '0' && v[i + 3] == '0' && is_hex_lower_exec(h1)
                    && is_hex_lower_exec(h2) {
                    let val: u32 = 16 * hex_val_exec(h1) + hex_val_exec(h2);
                    if val < 0x20 && !(val == 0x8 || val == 0x9 || val == 0xa || val == 0xc
                        || val == 0xd) {
                        proof {
                            assert(vstd::utf8::is_scalar(val));
                        }
                        let d = char::from_u32(val).unwrap();
                        push_char(&mut out, d);
                        proof {
                            assert(si.skip(6) =~= v@.skip(i + 6));
                            if parse_str_body(v@.skip(i + 6)) is Some {
                                let t = parse_str_body(v@.skip(i + 6)).unwrap();
                                assert(parse_str_body(si) == Some((seq![d] + t.0, t.1 + 6)));
                                assert(pre + (seq![d] + t.0) =~= out@ + t.0);
                            }
                        }
                        i = i + 6;
                    } else {
                        return None;
                    }
                } else {
                    return None;
                }
            } else {
                return None;
            }
        } else if (c as u32) >= 0x20 {
            push_char(&mut out, c);
            proof {
                assert(si.skip(1) =~= v@.skip(i + 1));
                if parse_str_body(v@.skip(i + 1)) is Some {
                    let t = parse_str_body(v@.skip(i + 1)).unwrap();
                    assert(parse_str_body(si) == Some((seq![c] + t.0, t.1 + 1)));
                    assert(pre + (seq![c] + t.0) =~= out@ + t.0);
                }
            }
            i = i + 1;
        } else {
            return None;
        }
    }
}

} // verus!
