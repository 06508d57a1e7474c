use vstd::prelude::*;

use crate::entry::EntryModel;
use crate::entry::LogEntry;
use crate::entry::LogOffset;
use crate::entry::wf_model;
use crate::level::Level;
use crate::level::level_label;
use crate::level::lemma_level_label_round_trip;
use crate::level::parse_level_prefix;

verus! {

// ---------------------------------------------------------------------------
// Decimal numbers
// ---------------------------------------------------------------------------

/// Is `c` a decimal digit?
pub open spec fn is_digit_char(c: char) -> bool {
    '0' <= c && c <= '9'
}

/// The numeric value of a decimal digit character.
pub open spec fn digit_val(c: char) -> int {
    c as int - '0' as int
}

/// The character of a decimal digit value below ten.
pub open spec fn digit_char(d: int) -> char {
    if d == 0 {
        '0'
    } else if d == 1 {
        '1'
    } else if d == 2 {
        '2'
    } else if d == 3 {
        '3'
    } else if d == 4 {
        '4'
    } else if d == 5 {
        '5'
    } else if d == 6 {
        '6'
    } else if d == 7 {
        '7'
    } else if d == 8 {
        '8'
    } else {
        '9'
    }
}

/// The decimal digits of `n`, most significant first, with no leading zeros
/// except for `n == 0` itself.
pub open spec fn dec_digits(n: nat) -> Seq<char>
    decreases n,
{
    if n < 10 {
        seq![digit_char(n as int)]
    } else {
        dec_digits(n / 10).push(digit_char((n % 10) as int))
    }
}

/// The value of a sequence of decimal digit characters.
pub open spec fn dec_value(ds: Seq<char>) -> int
    decreases ds.len(),
{
    if ds.len() == 0 {
        0
    } else {
        dec_value(ds.drop_last()) * 10 + digit_val(ds.last())
    }
}

/// How many decimal digit characters stand at the front of `s`.
pub open spec fn digit_prefix_len(s: Seq<char>) -> nat
    decreases s.len(),
{
    if s.len() == 0 || !is_digit_char(s[0]) {
        0
    } else {
        1 + digit_prefix_len(s.skip(1))
    }
}

/// Parses an unsigned decimal number standing at the front of `s`: on success
/// returns its value and the rest of `s` after its digits. Fails when no
/// digit stands first or the value exceeds `u64::MAX`.
pub open spec fn parse_u64(s: Seq<char>) -> Option<(u64, Seq<char>)> {
    let k = digit_prefix_len(s) as int;
    if k == 0 {
        None
    } else {
        let v = dec_value(s.take(k));
        if v > u64::MAX {
            None
        } else {
            Some((v as u64, s.skip(k)))
        }
    }
}

pub proof fn lemma_digit_char_val(d: int)
    requires
        0 <= d < 10,
    ensures
        is_digit_char(digit_char(d)),
        digit_val(digit_char(d)) == d,
{
}

/// Every character that `dec_digits` writes is a decimal digit.
pub proof fn lemma_dec_digits_are_digits(n: nat)
    ensures
        dec_digits(n).len() >= 1,
        forall|i: int| 0 <= i < dec_digits(n).len() ==> is_digit_char(#[trigger] dec_digits(n)[i]),
    decreases n,
{
    if n >= 10 {
        lemma_dec_digits_are_digits(n / 10);
    }
}

/// The digits of `n` evaluate back to `n`.
pub proof fn lemma_dec_value_of_digits(n: nat)
    ensures
        dec_value(dec_digits(n)) == n,
    decreases n,
{
    if n < 10 {
        lemma_digit_char_val(n as int);
        assert(dec_digits(n).drop_last() =~= Seq::<char>::empty());
        assert(dec_value(Seq::<char>::empty()) == 0);
    } else {
        lemma_dec_value_of_digits(n / 10);
        lemma_digit_char_val((n % 10) as int);
        let ds = dec_digits(n);
        assert(ds.drop_last() =~= dec_digits(n / 10));
        assert(ds.last() == digit_char((n % 10) as int));
        vstd::arithmetic::div_mod::lemma_fundamental_div_mod(n as int, 10);
    }
}

/// The digit prefix of digits followed by a non-digit is exactly the digits.
pub proof fn lemma_digit_prefix_len_concat(ds: Seq<char>, rest: Seq<char>)
    requires
        forall|i: int| 0 <= i < ds.len() ==> is_digit_char(#[trigger] ds[i]),
        rest.len() == 0 || !is_digit_char(rest[0]),
    ensures
        digit_prefix_len(ds + rest) == ds.len(),
    decreases ds.len(),
{
    if ds.len() == 0 {
        assert(ds + rest =~= rest);
    } else {
        let s = ds + rest;
        assert(s[0] == ds[0]);
        assert(s.skip(1) =~= ds.skip(1) + rest);
        assert(forall|i: int|
            0 <= i < ds.skip(1).len() ==> is_digit_char(#[trigger] ds.skip(1)[i]));
        lemma_digit_prefix_len_concat(ds.skip(1), rest);
    }
}

/// The digits of `n`, followed by anything that does not begin with a digit,
/// parse back to `n` and leave the rest untouched.
pub proof fn lemma_parse_u64_concat(n: nat, rest: Seq<char>)
    requires
        n <= u64::MAX,
        rest.len() == 0 || !is_digit_char(rest[0]),
    ensures
        parse_u64(dec_digits(n) + rest) == Some((n as u64, rest)),
{
    let ds = dec_digits(n);
    lemma_dec_digits_are_digits(n);
    lemma_digit_prefix_len_concat(ds, rest);
    lemma_dec_value_of_digits(n);
    let s = ds + rest;
    assert(s.take(ds.len() as int) =~= ds);
    assert(s.skip(ds.len() as int) =~= rest);
}

// ---------------------------------------------------------------------------
// Text escaping
// ---------------------------------------------------------------------------

/// Is `c` a hexadecimal digit (either case)?
pub open spec fn is_hex_char(c: char) -> bool {
    ('0' <= c && c <= '9') || ('a' <= c && c <= 'f') || ('A' <= c && c <= 'F')
}

/// The numeric value of a hexadecimal digit character.
pub open spec fn hex_val(c: char) -> int {
    if '0' <= c && c <= '9' {
        c as int - '0' as int
    } else if 'a' <= c && c <= 'f' {
        10 + c as int - 'a' as int
    } else {
        10 + c as int - 'A' as int
    }
}

/// The lowercase character of a hexadecimal digit value below sixteen.
pub open spec fn hex_char(d: int) -> char {
    if d < 10 {
        digit_char(d)
    } else if d == 10 {
        'a'
    } else if d == 11 {
        'b'
    } else if d == 12 {
        'c'
    } else if d == 13 {
        'd'
    } else if d == 14 {
        'e'
    } else {
        'f'
    }
}

pub proof fn lemma_hex_char_val(d: int)
    requires
        0 <= d < 16,
    ensures
        is_hex_char(hex_char(d)),
        hex_val(hex_char(d)) == d,
{
}

/// The escape of one character inside a quoted string: quote and backslash
/// get a backslash, the common control characters their short escapes, the
/// remaining control characters a four-digit hexadecimal escape, and every
/// other character stands for itself.
pub open spec fn esc_char(c: char) -> Seq<char> {
    if c == '"' {
        seq!['\\', '"']
    } else if c == '\\' {
        seq!['\\', '\\']
    } else if c == '\u{8}' {
        seq!['\\', 'b']
    } else if c == '\t' {
        seq!['\\', 't']
    } else if c == '\n' {
        seq!['\\', 'n']
    } else if c == '\u{c}' {
        seq!['\\', 'f']
    } else if c == '\r' {
        seq!['\\', 'r']
    } else if (c as u32) < 0x20 {
        seq!['\\', 'u', '0', '0', hex_char(c as u32 as int / 16), hex_char(c as u32 as int % 16)]
    } else {
        seq![c]
    }
}

/// The escaped form of a whole string (without the surrounding quotes).
pub open spec fn esc_str(s: Seq<char>) -> Seq<char>
    decreases s.len(),
{
    if s.len() == 0 {
        Seq::empty()
    } else {
        esc_char(s[0]) + esc_str(s.skip(1))
    }
}

/// The character that a short escape code stands for, if it is one.
pub open spec fn unesc_short(e: char) -> Option<char> {
    if e == '"' {
        Some('"')
    } else if e == '\\' {
        Some('\\')
    } else if e == '/' {
        Some('/')
    } else if e == 'b' {
        Some('\u{8}')
    } else if e == 'f' {
        Some('\u{c}')
    } else if e == 'n' {
        Some('\n')
    } else if e == 'r' {
        Some('\r')
    } else if e == 't' {
        Some('\t')
    } else {
        None
    }
}

/// Parses a quoted string standing at the front of `s`, whose opening quote
/// has already been consumed: on success returns the unescaped content and
/// the rest of `s` after the closing quote. A bad escape, an unescaped
/// control character, a surrogate code point or a missing closing quote is a
/// failure.
pub open spec fn parse_jstring(s: Seq<char>) -> Option<(Seq<char>, Seq<char>)>
    decreases s.len(),
{
    if s.len() == 0 {
        None
    } else if s[0] == '"' {
        Some((Seq::empty(), s.skip(1)))
    } else if s[0] == '\\' {
        if s.len() < 2 {
            None
        } else if s[1] == 'u' {
            if s.len() < 6 {
                None
            } else if is_hex_char(s[2]) && is_hex_char(s[3]) && is_hex_char(s[4]) && is_hex_char(
                s[5],
            ) {
                let v = hex_val(s[2]) * 4096 + hex_val(s[3]) * 256 + hex_val(s[4]) * 16 + hex_val(
                    s[5],
                );
                if 0xD800 <= v < 0xE000 {
                    None
                } else {
                    match parse_jstring(s.skip(6)) {
                        None => None,
                        Some((t, r)) => Some((seq![(v as u32) as char] + t, r)),
                    }
                }
            } else {
                None
            }
        } else {
            match unesc_short(s[1]) {
                None => None,
                Some(c) => match parse_jstring(s.skip(2)) {
                    None => None,
                    Some((t, r)) => Some((seq![c] + t, r)),
                },
            }
        }
    } else if (s[0] as u32) < 0x20 {
        None
    } else {
        match parse_jstring(s.skip(1)) {
            None => None,
            Some((t, r)) => Some((seq![s[0]] + t, r)),
        }
    }
}

/// The escape of any string, closed with a quote, parses back to that string
/// and leaves what follows the quote untouched.
#[verifier::rlimit(60)]
pub proof fn lemma_jstring_round_trip(t: Seq<char>, rest: Seq<char>)
    ensures
        parse_jstring(esc_str(t) + seq!['"'] + rest) == Some((t, rest)),
    decreases t.len(),
{
    let s = esc_str(t) + seq!['"'] + rest;
    if t.len() == 0 {
        assert(s =~= seq!['"'] + rest);
        assert(s[0] == '"');
        assert(s.skip(1) =~= rest);
        assert(t =~= Seq::<char>::empty());
    } else {
        let c = t[0];
        let t1 = t.skip(1);
        lemma_jstring_round_trip(t1, rest);
        let s1 = esc_str(t1) + seq!['"'] + rest;
        assert(seq![c] + t1 =~= t);
        if c == '"' || c == '\\' {
            assert(s =~= seq!['\\', c] + s1);
            assert(s.skip(2) =~= s1);
        } else if c == '\u{8}' {
            assert(s =~= seq!['\\', 'b'] + s1);
            assert(s.skip(2) =~= s1);
        } else if c == '\t' {
            assert(s =~= seq!['\\', 't'] + s1);
            assert(s.skip(2) =~= s1);
        } else if c == '\n' {
            assert(s =~= seq!['\\', 'n'] + s1);
            assert(s.skip(2) =~= s1);
        } else if c == '\u{c}' {
            assert(s =~= seq!['\\', 'f'] + s1);
            assert(s.skip(2) =~= s1);
        } else if c == '\r' {
            assert(s =~= seq!['\\', 'r'] + s1);
            assert(s.skip(2) =~= s1);
        } else if (c as u32) < 0x20 {
            let u = c as u32 as int;
            vstd::arithmetic::div_mod::lemma_fundamental_div_mod(u, 16);
            lemma_hex_char_val(u / 16);
            lemma_hex_char_val(u % 16);
            assert(s =~= seq!['\\', 'u', '0', '0', hex_char(u / 16), hex_char(u % 16)] + s1);
            assert(s.skip(6) =~= s1);
            assert(hex_val(s[2]) == 0 && hex_val(s[3]) == 0);
            let v = hex_val(s[2]) * 4096 + hex_val(s[3]) * 256 + hex_val(s[4]) * 16 + hex_val(
                s[5],
            );
            assert(v == u);
            assert(v as u32 == c as u32);
            vstd::utf8::char_u32_cast(c, c as u32);
            assert((v as u32) as char == c);
        } else {
            assert(s =~= seq![c] + s1);
            assert(s.skip(1) =~= s1);
        }
    }
}

// ---------------------------------------------------------------------------
// The record line
// ---------------------------------------------------------------------------

/// The opening of a record line, up to the seconds value.
pub open spec fn lit_head() -> Seq<char> {
    "{\"offset\":{\"secs\":"@
}

/// Between the seconds and the nanoseconds value.
pub open spec fn lit_nanos() -> Seq<char> {
    ",\"nanos\":"@
}

/// Between the nanoseconds value and the severity label.
pub open spec fn lit_level() -> Seq<char> {
    "},\"level\":\""@
}

/// Between the severity label and the target string.
pub open spec fn lit_target() -> Seq<char> {
    "\",\"target\":\""@
}

/// Between the target's closing quote and the body string.
pub open spec fn lit_body() -> Seq<char> {
    ",\"body\":\""@
}

/// After the body's closing quote.
pub open spec fn lit_close() -> Seq<char> {
    "}"@
}

/// Reveals every literal of the record grammar as its concrete characters.
pub proof fn lemma_literals()
    ensures
        lit_head() =~= seq![
            '{', '"', 'o', 'f', 'f', 's', 'e', 't', '"', ':', '{', '"', 's', 'e', 'c', 's', '"',
            ':',
        ],
        lit_nanos() =~= seq![',', '"', 'n', 'a', 'n', 'o', 's', '"', ':'],
        lit_level() =~= seq!['}', ',', '"', 'l', 'e', 'v', 'e', 'l', '"', ':', '"'],
        lit_target() =~= seq!['"', ',', '"', 't', 'a', 'r', 'g', 'e', 't', '"', ':', '"'],
        lit_body() =~= seq![',', '"', 'b', 'o', 'd', 'y', '"', ':', '"'],
        lit_close() =~= seq!['}'],
        "\",\"body\":\""@ =~= seq!['"'] + lit_body(),
        "\"}"@ =~= seq!['"'] + lit_close(),
        "\n"@ =~= seq!['\n'],
{
    reveal_strlit("{\"offset\":{\"secs\":");
    reveal_strlit(",\"nanos\":");
    reveal_strlit("},\"level\":\"");
    reveal_strlit("\",\"target\":\"");
    reveal_strlit(",\"body\":\"");
    reveal_strlit("}");
    reveal_strlit("\",\"body\":\"");
    reveal_strlit("\"}");
    reveal_strlit("\n");
}

/// The one-line textual encoding of a record, without a line terminator.
/// The grouping follows the order in which a reader consumes the line.
pub open spec fn encode_model(m: EntryModel) -> Seq<char> {
    lit_head() + (dec_digits(m.secs as nat) + (lit_nanos() + (dec_digits(m.nanos as nat)
        + (lit_level() + (level_label(m.level) + (lit_target() + (esc_str(m.target)
        + (seq!['"'] + (lit_body() + (esc_str(m.body) + (seq!['"'] + lit_close())))))))))))
}

/// Consumes an expected literal at the front of `s`.
pub open spec fn expect(s: Seq<char>, lit: Seq<char>) -> Option<Seq<char>> {
    if lit.is_prefix_of(s) {
        Some(s.skip(lit.len() as int))
    } else {
        None
    }
}

pub proof fn lemma_expect_concat(lit: Seq<char>, rest: Seq<char>)
    ensures
        expect(lit + rest, lit) == Some(rest),
{
    let s = lit + rest;
    assert(s.subrange(0, lit.len() as int) =~= lit);
    assert(s.skip(lit.len() as int) =~= rest);
}

/// Parses one line's characters (without its line terminator) as a record.
/// Any missing, malformed or ill-typed field is a failure, as is anything at
/// all after the record's closing brace.
pub open spec fn decode_line(s: Seq<char>) -> Option<EntryModel> {
    match expect(s, lit_head()) {
        None => None,
        Some(s1) => match parse_u64(s1) {
            None => None,
            Some((secs, s2)) => match expect(s2, lit_nanos()) {
                None => None,
                Some(s3) => match parse_u64(s3) {
                    None => None,
                    Some((nanos, s4)) => if nanos >= 1_000_000_000u64 {
                        None
                    } else {
                        match expect(s4, lit_level()) {
                            None => None,
                            Some(s5) => match parse_level_prefix(s5) {
                                None => None,
                                Some((level, s6)) => match expect(s6, lit_target()) {
                                    None => None,
                                    Some(s7) => match parse_jstring(s7) {
                                        None => None,
                                        Some((target, s8)) => match expect(s8, lit_body()) {
                                            None => None,
                                            Some(s9) => match parse_jstring(s9) {
                                                None => None,
                                                Some((body, s10)) => match expect(
                                                    s10,
                                                    lit_close(),
                                                ) {
                                                    None => None,
                                                    Some(s11) => if s11.len() == 0 {
                                                        Some(
                                                            EntryModel {
                                                                secs,
                                                                nanos: nanos as u32,
                                                                level,
                                                                target,
                                                                body,
                                                            },
                                                        )
                                                    } else {
                                                        None
                                                    },
                                                },
                                            },
                                        },
                                    },
                                },
                            },
                        }
                    },
                },
            },
        },
    }
}

/// Round trip: decoding the encoding of any well-formed record yields that
/// record, field for field.
#[verifier::rlimit(60)]
pub proof fn lemma_entry_round_trip(m: EntryModel)
    requires
        wf_model(m),
    ensures
        decode_line(encode_model(m)) == Some(m),
{
    lemma_literals();
    let dsecs = dec_digits(m.secs as nat);
    let dnanos = dec_digits(m.nanos as nat);
    let lab = level_label(m.level);
    let et = esc_str(m.target);
    let eb = esc_str(m.body);
    let s = encode_model(m);

    let r12 = seq!['"'] + lit_close();
    let r11 = eb + r12;
    let r10 = lit_body() + r11;
    let r9 = seq!['"'] + r10;
    let r8 = et + r9;
    let r7 = lit_target() + r8;
    let r6 = lab + r7;
    let r5 = lit_level() + r6;
    let r4 = dnanos + r5;
    let r3 = lit_nanos() + r4;
    let r2 = dsecs + r3;
    assert(s == lit_head() + r2);

    lemma_expect_concat(lit_head(), r2);
    assert(expect(s, lit_head()) == Some(r2));

    assert(r3[0] == ',' && !is_digit_char(','));
    lemma_parse_u64_concat(m.secs as nat, r3);
    assert(parse_u64(r2) == Some((m.secs, r3)));

    lemma_expect_concat(lit_nanos(), r4);

    assert(r5[0] == '}' && !is_digit_char('}'));
    lemma_parse_u64_concat(m.nanos as nat, r5);
    assert(parse_u64(r4) == Some((m.nanos as u64, r5)));

    lemma_expect_concat(lit_level(), r6);

    lemma_level_label_round_trip(m.level, r7);
    assert(parse_level_prefix(r6) == Some((m.level, r7)));

    lemma_expect_concat(lit_target(), r8);

    assert(et + seq!['"'] + r10 =~= r8);
    lemma_jstring_round_trip(m.target, r10);
    assert(parse_jstring(r8) == Some((m.target, r10)));

    lemma_expect_concat(lit_body(), r11);

    assert(eb + seq!['"'] + lit_close() =~= r11);
    lemma_jstring_round_trip(m.body, lit_close());
    assert(parse_jstring(r11) == Some((m.body, lit_close())));

    lemma_expect_concat(lit_close(), Seq::<char>::empty());
    assert(lit_close() + Seq::<char>::empty() =~= lit_close());
    assert(expect(lit_close(), lit_close()) == Some(Seq::<char>::empty()));

    assert(decode_line(s) == Some(
        EntryModel {
            secs: m.secs,
            nanos: (m.nanos as u64) as u32,
            level: m.level,
            target: m.target,
            body: m.body,
        },
    ));
    assert(EntryModel {
        secs: m.secs,
        nanos: (m.nanos as u64) as u32,
        level: m.level,
        target: m.target,
        body: m.body,
    } == m);
}

// ---------------------------------------------------------------------------
// Line cleanliness
// ---------------------------------------------------------------------------

/// A character sequence free of line terminators, fit to stand as one framed
/// line of the stream.
pub open spec fn line_clean(s: Seq<char>) -> bool {
    forall|i: int| 0 <= i < s.len() ==> #[trigger] s[i] != '\n'
}

pub proof fn lemma_clean_concat(a: Seq<char>, b: Seq<char>)
    requires
        line_clean(a),
        line_clean(b),
    ensures
        line_clean(a + b),
{
    assert forall|i: int| 0 <= i < (a + b).len() implies #[trigger] (a + b)[i] != '\n' by {
        if i < a.len() {
            assert((a + b)[i] == a[i]);
        } else {
            assert((a + b)[i] == b[i - a.len()]);
        }
    }
}

pub proof fn lemma_esc_str_clean(t: Seq<char>)
    ensures
        line_clean(esc_str(t)),
    decreases t.len(),
{
    if t.len() == 0 {
    } else {
        let c = t[0];
        lemma_esc_str_clean(t.skip(1));
        if c == '"' || c == '\\' || c == '\u{8}' || c == '\t' || c == '\n' || c == '\u{c}'
            || c == '\r' {
            assert(line_clean(esc_char(c)));
        } else if (c as u32) < 0x20 {
            lemma_hex_char_val(c as u32 as int / 16);
            lemma_hex_char_val(c as u32 as int % 16);
            assert(line_clean(esc_char(c)));
        } else {
            assert(line_clean(esc_char(c)));
        }
        lemma_clean_concat(esc_char(c), esc_str(t.skip(1)));
    }
}

pub proof fn lemma_dec_digits_clean(n: nat)
    ensures
        line_clean(dec_digits(n)),
{
    lemma_dec_digits_are_digits(n);
}

/// An encoded record holds no line terminator, so the one-record-per-line
/// framing can never be broken from inside a record.
pub proof fn lemma_encode_model_clean(m: EntryModel)
    ensures
        line_clean(encode_model(m)),
{
    lemma_literals();
    crate::level::lemma_labels_revealed();
    lemma_dec_digits_clean(m.secs as nat);
    lemma_dec_digits_clean(m.nanos as nat);
    lemma_esc_str_clean(m.target);
    lemma_esc_str_clean(m.body);
    let quote = seq!['"'];
    assert(line_clean(lit_head()));
    assert(line_clean(lit_nanos()));
    assert(line_clean(lit_level()));
    assert(line_clean(lit_target()));
    assert(line_clean(lit_body()));
    assert(line_clean(lit_close()));
    assert(line_clean(quote));
    assert(line_clean(level_label(m.level)));
    let p12 = quote + lit_close();
    lemma_clean_concat(quote, lit_close());
    let p11 = esc_str(m.body) + p12;
    lemma_clean_concat(esc_str(m.body), p12);
    let p10 = lit_body() + p11;
    lemma_clean_concat(lit_body(), p11);
    let p9 = quote + p10;
    lemma_clean_concat(quote, p10);
    let p8 = esc_str(m.target) + p9;
    lemma_clean_concat(esc_str(m.target), p9);
    let p7 = lit_target() + p8;
    lemma_clean_concat(lit_target(), p8);
    let p6 = level_label(m.level) + p7;
    lemma_clean_concat(level_label(m.level), p7);
    let p5 = lit_level() + p6;
    lemma_clean_concat(lit_level(), p6);
    let p4 = dec_digits(m.nanos as nat) + p5;
    lemma_clean_concat(dec_digits(m.nanos as nat), p5);
    let p3 = lit_nanos() + p4;
    lemma_clean_concat(lit_nanos(), p4);
    let p2 = dec_digits(m.secs as nat) + p3;
    lemma_clean_concat(dec_digits(m.secs as nat), p3);
    lemma_clean_concat(lit_head(), p2);
}

// ---------------------------------------------------------------------------
// Executable encoding
// ---------------------------------------------------------------------------

/// Relies on std's String::push: appends exactly one character at the end.
#[verifier::external_body]
fn push_char(s: &mut String, c: char)
    ensures
        final(s)@ == old(s)@.push(c),
{
    s.push(c);
}

fn digit_char_of(d: u8) -> (c: char)
    requires
        d < 10,
    ensures
        c == digit_char(d as int),
{
    match d {
        0 => '0',
        1 => '1',
        2 => '2',
        3 => '3',
        4 => '4',
        5 => '5',
        6 => '6',
        7 => '7',
        8 => '8',
        _ => '9',
    }
}

fn hex_char_of(d: u8) -> (c: char)
    requires
        d < 16,
    ensures
        c == hex_char(d as int),
{
    if d < 10 {
        digit_char_of(d)
    } else {
        match d {
            10 => 'a',
            11 => 'b',
            12 => 'c',
            13 => 'd',
            14 => 'e',
            _ => 'f',
        }
    }
}

/// Appends the decimal digits of `n`.
fn push_u64(out: &mut String, n: u64)
    ensures
        final(out)@ == old(out)@ + dec_digits(n as nat),
    decreases n,
{
    if n < 10 {
        push_char(out, digit_char_of(n as u8));
        proof {
            assert(old(out)@ + dec_digits(n as nat) =~= old(out)@.push(digit_char(n as int)));
        }
    } else {
        push_u64(out, n / 10);
        push_char(out, digit_char_of((n % 10) as u8));
        proof {
            assert(old(out)@ + dec_digits(n as nat) =~= (old(out)@ + dec_digits(
                (n / 10) as nat,
            )).push(digit_char((n % 10) as int)));
        }
    }
}

pub proof fn lemma_esc_str_concat(a: Seq<char>, b: Seq<char>)
    ensures
        esc_str(a + b) == esc_str(a) + esc_str(b),
    decreases a.len(),
{
    if a.len() == 0 {
        assert(a + b =~= b);
        assert(esc_str(a) + esc_str(b) =~= esc_str(b));
    } else {
        assert((a + b)[0] == a[0]);
        assert((a + b).skip(1) =~= a.skip(1) + b);
        lemma_esc_str_concat(a.skip(1), b);
        assert(esc_char(a[0]) + (esc_str(a.skip(1)) + esc_str(b)) =~= (esc_char(a[0]) + esc_str(
            a.skip(1),
        )) + esc_str(b));
    }
}

pub proof fn lemma_esc_str_single(c: char)
    ensures
        esc_str(seq![c]) == esc_char(c),
{
    assert(seq![c].skip(1) =~= Seq::<char>::empty());
    assert(esc_str(Seq::<char>::empty()) == Seq::<char>::empty());
    assert(esc_char(c) + Seq::<char>::empty() =~= esc_char(c));
}

/// Appends the escaped form of `s`.
fn push_escaped(out: &mut String, s: &str)
    ensures
        final(out)@ == old(out)@ + esc_str(s@),
{
    let ghost out0 = old(out)@;
    let n = s.unicode_len();
    let mut i: usize = 0;
    while i < n
        invariant
            i <= n,
            n == s@.len(),
            out@ == out0 + esc_str(s@.take(i as int)),
        decreases n - i,
    {
        let ghost prev = out@;
        let c = s.get_char(i);
        if c == '"' {
            push_char(out, '\\');
            push_char(out, '"');
        } else if c == '\\' {
            push_char(out, '\\');
            push_char(out, '\\');
        } else if c == '\u{8}' {
            push_char(out, '\\');
            push_char(out, 'b');
        } else if c == '\t' {
            push_char(out, '\\');
            push_char(out, 't');
        } else if c == '\n' {
            push_char(out, '\\');
            push_char(out, 'n');
        } else if c == '\u{c}' {
            push_char(out, '\\');
            push_char(out, 'f');
        } else if c == '\r' {
            push_char(out, '\\');
            push_char(out, 'r');
        } else {
            let u = c as u32;
            if u < 0x20 {
                push_char(out, '\\');
                push_char(out, 'u');
                push_char(out, '0');
                push_char(out, '0');
                push_char(out, hex_char_of((u / 16) as u8));
                push_char(out, hex_char_of((u % 16) as u8));
            } else {
                push_char(out, c);
            }
        }
        proof {
            assert(out@ =~= prev + esc_char(c));
            assert(s@.take(i + 1) =~= s@.take(i as int) + seq![c]);
            lemma_esc_str_concat(s@.take(i as int), seq![c]);
            lemma_esc_str_single(c);
            assert(out@ =~= out0 + esc_str(s@.take(i + 1)));
        }
        i += 1;
    }
    proof {
        assert(s@.take(n as int) =~= s@);
    }
}

/// Encodes a record as one line of text, without a line terminator.
pub fn encode_entry(e: &LogEntry) -> (r: String)
    ensures
        r@ == encode_model(e@),
{
    let mut out = String::new();
    out.append("{\"offset\":{\"secs\":");
    push_u64(&mut out, e.offset.secs);
    out.append(",\"nanos\":");
    push_u64(&mut out, e.offset.nanos as u64);
    out.append("},\"level\":\"");
    out.append(e.level.label_str());
    out.append("\",\"target\":\"");
    push_escaped(&mut out, e.target.as_str());
    out.append("\",\"body\":\"");
    push_escaped(&mut out, e.body.as_str());
    out.append("\"}");
    proof {
        lemma_literals();
        assert(out@ =~= encode_model(e@));
    }
    out
}

// ---------------------------------------------------------------------------
// Executable decoding
// ---------------------------------------------------------------------------

pub proof fn lemma_dec_value_nonneg(ds: Seq<char>)
    requires
        forall|i: int| 0 <= i < ds.len() ==> is_digit_char(#[trigger] ds[i]),
    ensures
        dec_value(ds) >= 0,
    decreases ds.len(),
{
    if ds.len() > 0 {
        assert(forall|i: int|
            0 <= i < ds.drop_last().len() ==> is_digit_char(#[trigger] ds.drop_last()[i]));
        lemma_dec_value_nonneg(ds.drop_last());
    }
}

/// A longer digit prefix never has a smaller value.
pub proof fn lemma_dec_value_prefix_mono(s: Seq<char>, i: int, j: int)
    requires
        0 <= i <= j <= s.len(),
        forall|k: int| 0 <= k < s.len() ==> is_digit_char(#[trigger] s[k]),
    ensures
        dec_value(s.take(i)) <= dec_value(s.take(j)),
    decreases j - i,
{
    if j > i {
        lemma_dec_value_prefix_mono(s, i, j - 1);
        assert(s.take(j).drop_last() =~= s.take(j - 1));
        assert(s.take(j).last() == s[j - 1]);
        assert(forall|k: int| 0 <= k < s.take(j - 1).len() ==> is_digit_char(
            #[trigger] s.take(j - 1)[k],
        ));
        lemma_dec_value_nonneg(s.take(j - 1));
    }
}

fn is_digit(c: char) -> (b: bool)
    ensures
        b == is_digit_char(c),
{
    '0' <= c && c <= '9'
}

/// The numeric value of a hexadecimal digit, if `c` is one.
fn hex_digit_value(c: char) -> (r: Option<u8>)
    ensures
        r is Some <==> is_hex_char(c),
        r matches Some(v) ==> v == hex_val(c),
{
    if '0' <= c && c <= '9' {
        Some((c as u32 - '0' as u32) as u8)
    } else if 'a' <= c && c <= 'f' {
        Some((10 + (c as u32 - 'a' as u32)) as u8)
    } else if 'A' <= c && c <= 'F' {
        Some((10 + (c as u32 - 'A' as u32)) as u8)
    } else {
        None
    }
}

fn unesc_short_of(e: char) -> (r: Option<char>)
    ensures
        r == unesc_short(e),
{
    if e == '"' {
        Some('"')
    } else if e == '\\' {
        Some('\\')
    } else if e == '/' {
        Some('/')
    } else if e == 'b' {
        Some('\u{8}')
    } else if e == 'f' {
        Some('\u{c}')
    } else if e == 'n' {
        Some('\n')
    } else if e == 'r' {
        Some('\r')
    } else if e == 't' {
        Some('\t')
    } else {
        None
    }
}

/// Relies on std's char::from_u32: every code point below the surrogate
/// range, and every one between the surrogates and 0x10FFFF, is a char with
/// exactly that value, so the call cannot fail on these inputs.
#[verifier::external_body]
fn char_from_u32(v: u32) -> (c: char)
    requires
        v < 0xD800 || (0xE000 <= v && v <= 0x10FFFF),
    ensures
        c as u32 == v,
{
    char::from_u32(v).unwrap()
}

/// Consumes the literal `lit` at position `pos` of the line `chars[..end]`:
/// on success returns the position just past it.
fn match_lit(chars: &Vec<char>, pos: usize, end: usize, lit: &str) -> (r: Option<usize>)
    requires
        pos <= end <= chars@.len(),
    ensures
        r matches Some(p) ==> pos <= p <= end && expect(
            chars@.subrange(pos as int, end as int),
            lit@,
        ) == Some(chars@.subrange(p as int, end as int)),
        r is None ==> expect(chars@.subrange(pos as int, end as int), lit@) is None,
{
    let ghost sub = chars@.subrange(pos as int, end as int);
    let n = lit.unicode_len();
    if end - pos < n {
        proof {
            assert(!lit@.is_prefix_of(sub));
        }
        return None;
    }
    let mut i: usize = 0;
    while i < n
        invariant
            i <= n,
            n == lit@.len(),
            pos + n <= end <= chars@.len(),
            sub == chars@.subrange(pos as int, end as int),
            forall|j: int| 0 <= j < i ==> chars@[pos + j] == lit@[j],
        decreases n - i,
    {
        if chars[pos + i] != lit.get_char(i) {
            proof {
                assert(sub.subrange(0, n as int)[i as int] == chars@[pos + i]);
                assert(!lit@.is_prefix_of(sub));
            }
            return None;
        }
        i += 1;
    }
    proof {
        assert(lit@ =~= sub.subrange(0, n as int));
        assert(sub.skip(n as int) =~= chars@.subrange((pos + n) as int, end as int));
    }
    Some(pos + n)
}

/// Parses a decimal number at position `pos` of the line `chars[..end]`.
fn parse_u64_at(chars: &Vec<char>, pos: usize, end: usize) -> (r: Option<(u64, usize)>)
    requires
        pos <= end <= chars@.len(),
    ensures
        r matches Some(v) ==> pos <= v.1 <= end && parse_u64(
            chars@.subrange(pos as int, end as int),
        ) == Some((v.0, chars@.subrange(v.1 as int, end as int))),
        r is None ==> parse_u64(chars@.subrange(pos as int, end as int)) is None,
{
    let ghost sub = chars@.subrange(pos as int, end as int);
    let mut k: usize = pos;
    while k < end && is_digit(chars[k])
        invariant
            pos <= k <= end <= chars@.len(),
            forall|j: int| pos <= j < k ==> is_digit_char(#[trigger] chars@[j]),
        decreases end - k,
    {
        k += 1;
    }
    proof {
        let ds = chars@.subrange(pos as int, k as int);
        let rest = chars@.subrange(k as int, end as int);
        assert(sub =~= ds + rest);
        assert(forall|i: int| 0 <= i < ds.len() ==> is_digit_char(#[trigger] ds[i]));
        lemma_digit_prefix_len_concat(ds, rest);
        assert(digit_prefix_len(sub) == k - pos);
    }
    if k == pos {
        return None;
    }
    let ghost ds = chars@.subrange(pos as int, k as int);
    let mut acc: u64 = 0;
    let mut i: usize = pos;
    while i < k
        invariant
            pos <= i <= k <= end <= chars@.len(),
            pos < k,
            sub == chars@.subrange(pos as int, end as int),
            digit_prefix_len(sub) == k - pos,
            ds == chars@.subrange(pos as int, k as int),
            forall|j: int| pos <= j < k ==> is_digit_char(#[trigger] chars@[j]),
            acc == dec_value(chars@.subrange(pos as int, i as int)),
        decreases k - i,
    {
        let c = chars[i];
        let d = (c as u32 - '0' as u32) as u64;
        proof {
            assert(chars@.subrange(pos as int, i + 1).drop_last() =~= chars@.subrange(
                pos as int,
                i as int,
            ));
            assert(chars@.subrange(pos as int, i + 1).last() == chars@[i as int]);
            assert(forall|j: int| 0 <= j < ds.len() ==> is_digit_char(#[trigger] ds[j]));
        }
        let stepped = match acc.checked_mul(10) {
            Some(m) => m.checked_add(d),
            None => None,
        };
        match stepped {
            Some(x) => {
                acc = x;
            },
            None => {
                proof {
                    assert(dec_value(chars@.subrange(pos as int, i + 1)) > u64::MAX);
                    assert(ds.take(i + 1 - pos) =~= chars@.subrange(pos as int, i + 1));
                    assert(ds.take(k - pos) =~= ds);
                    lemma_dec_value_prefix_mono(ds, i + 1 - pos, k - pos);
                    assert(sub.take(k - pos) =~= ds);
                    assert(dec_value(sub.take(k - pos)) > u64::MAX);
                }
                return None;
            },
        }
        i += 1;
    }
    proof {
        assert(sub.take(k - pos) =~= chars@.subrange(pos as int, k as int));
        assert(sub.skip(k - pos) =~= chars@.subrange(k as int, end as int));
    }
    Some((acc, k))
}

/// Parses a severity label at position `pos` of the line `chars[..end]`.
fn parse_level_at(chars: &Vec<char>, pos: usize, end: usize) -> (r: Option<(Level, usize)>)
    requires
        pos <= end <= chars@.len(),
    ensures
        r matches Some(v) ==> pos <= v.1 <= end && parse_level_prefix(
            chars@.subrange(pos as int, end as int),
        ) == Some((v.0, chars@.subrange(v.1 as int, end as int))),
        r is None ==> parse_level_prefix(chars@.subrange(pos as int, end as int)) is None,
{
    proof {
        crate::level::lemma_labels_revealed();
    }
    if let Some(p) = match_lit(chars, pos, end, "ERROR") {
        return Some((Level::Error, p));
    }
    if let Some(p) = match_lit(chars, pos, end, "WARN") {
        return Some((Level::Warn, p));
    }
    if let Some(p) = match_lit(chars, pos, end, "INFO") {
        return Some((Level::Info, p));
    }
    if let Some(p) = match_lit(chars, pos, end, "DEBUG") {
        return Some((Level::Debug, p));
    }
    if let Some(p) = match_lit(chars, pos, end, "TRACE") {
        return Some((Level::Trace, p));
    }
    None
}

/// Parses a quoted string (opening quote already consumed) at position `pos`
/// of the line `chars[..end]`: on success returns the unescaped content and
/// the position just past the closing quote.
fn parse_jstring_at(chars: &Vec<char>, pos: usize, end: usize) -> (r: Option<(String, usize)>)
    requires
        pos <= end <= chars@.len(),
    ensures
        r matches Some(v) ==> pos <= v.1 <= end && parse_jstring(
            chars@.subrange(pos as int, end as int),
        ) == Some((v.0@, chars@.subrange(v.1 as int, end as int))),
        r is None ==> parse_jstring(chars@.subrange(pos as int, end as int)) is None,
{
    let ghost sub = chars@.subrange(pos as int, end as int);
    let mut out = String::new();
    let mut i: usize = pos;
    loop
        invariant
            pos <= i <= end <= chars@.len(),
            sub == chars@.subrange(pos as int, end as int),
            (match parse_jstring(chars@.subrange(i as int, end as int)) {
                None => parse_jstring(sub) is None,
                Some((t, r)) => parse_jstring(sub) == Some((out@ + t, r)),
            }),
        decreases end - i,
    {
        let ghost cur = chars@.subrange(i as int, end as int);
        if i >= end {
            proof {
                assert(cur.len() == 0);
            }
            return None;
        }
        proof {
            assert(cur[0] == chars@[i as int]);
        }
        let c = chars[i];
        if c == '"' {
            proof {
                assert(cur.skip(1) =~= chars@.subrange(i + 1, end as int));
                assert(out@ + Seq::<char>::empty() =~= out@);
            }
            return Some((out, i + 1));
        }
        if c == '\\' {
            if i + 1 >= end {
                proof {
                    assert(cur.len() < 2);
                }
                return None;
            }
            proof {
                assert(cur[1] == chars@[i + 1]);
            }
            let e = chars[i + 1];
            if e == 'u' {
                if end - i < 6 {
                    proof {
                        assert(cur.len() < 6);
                    }
                    return None;
                }
                proof {
                    assert(cur[2] == chars@[i + 2]);
                    assert(cur[3] == chars@[i + 3]);
                    assert(cur[4] == chars@[i + 4]);
                    assert(cur[5] == chars@[i + 5]);
                }
                let h2 = hex_digit_value(chars[i + 2]);
                let h3 = hex_digit_value(chars[i + 3]);
                let h4 = hex_digit_value(chars[i + 4]);
                let h5 = hex_digit_value(chars[i + 5]);
                match (h2, h3, h4, h5) {
                    (Some(a), Some(b), Some(cc), Some(dd)) => {
                        let v: u32 = a as u32 * 4096 + b as u32 * 256 + cc as u32 * 16
                            + dd as u32;
                        if 0xD800 <= v && v < 0xE000 {
                            return None;
                        }
                        let c2 = char_from_u32(v);
                        proof {
                            vstd::utf8::char_u32_cast(c2, v);
                            assert(cur.skip(6) =~= chars@.subrange(i + 6, end as int));
                            let nxt = parse_jstring(cur.skip(6));
                            if nxt is Some {
                                assert(out@ + (seq![c2] + nxt.unwrap().0) =~= out@.push(c2)
                                    + nxt.unwrap().0);
                            }
                        }
                        push_char(&mut out, c2);
                        i += 6;
                    },
                    _ => {
                        return None;
                    },
                }
            } else {
                match unesc_short_of(e) {
                    None => {
                        return None;
                    },
                    Some(c2) => {
                        proof {
                            assert(cur.skip(2) =~= chars@.subrange(i + 2, end as int));
                            let nxt = parse_jstring(cur.skip(2));
                            if nxt is Some {
                                assert(out@ + (seq![c2] + nxt.unwrap().0) =~= out@.push(c2)
                                    + nxt.unwrap().0);
                            }
                        }
                        push_char(&mut out, c2);
                        i += 2;
                    },
                }
            }
        } else if (c as u32) < 0x20 {
            return None;
        } else {
            proof {
                assert(cur.skip(1) =~= chars@.subrange(i + 1, end as int));
                let nxt = parse_jstring(cur.skip(1));
                if nxt is Some {
                    assert(out@ + (seq![c] + nxt.unwrap().0) =~= out@.push(c) + nxt.unwrap().0);
                }
            }
            push_char(&mut out, c);
            i += 1;
        }
    }
}

/// Decodes the record standing in `chars[start..end]`, one whole line
/// without its terminator.
pub(crate) fn decode_range(chars: &Vec<char>, start: usize, end: usize) -> (r: Option<LogEntry>)
    requires
        start <= end <= chars@.len(),
    ensures
        r matches Some(e) ==> decode_line(chars@.subrange(start as int, end as int)) == Some(e@)
            && e.wf(),
        r is None ==> decode_line(chars@.subrange(start as int, end as int)) is None,
{
    let p1 = match match_lit(chars, start, end, "{\"offset\":{\"secs\":") {
        Some(p) => p,
        None => {
            return None;
        },
    };
    let (secs, p2) = match parse_u64_at(chars, p1, end) {
        Some(v) => v,
        None => {
            return None;
        },
    };
    let p3 = match match_lit(chars, p2, end, ",\"nanos\":") {
        Some(p) => p,
        None => {
            return None;
        },
    };
    let (nanos, p4) = match parse_u64_at(chars, p3, end) {
        Some(v) => v,
        None => {
            return None;
        },
    };
    if nanos >= 1_000_000_000u64 {
        return None;
    }
    let p5 = match match_lit(chars, p4, end, "},\"level\":\"") {
        Some(p) => p,
        None => {
            return None;
        },
    };
    let (level, p6) = match parse_level_at(chars, p5, end) {
        Some(v) => v,
        None => {
            return None;
        },
    };
    let p7 = match match_lit(chars, p6, end, "\",\"target\":\"") {
        Some(p) => p,
        None => {
            return None;
        },
    };
    let (target, p8) = match parse_jstring_at(chars, p7, end) {
        Some(v) => v,
        None => {
            return None;
        },
    };
    let p9 = match match_lit(chars, p8, end, ",\"body\":\"") {
        Some(p) => p,
        None => {
            return None;
        },
    };
    let (body, p10) = match parse_jstring_at(chars, p9, end) {
        Some(v) => v,
        None => {
            return None;
        },
    };
    let p11 = match match_lit(chars, p10, end, "}") {
        Some(p) => p,
        None => {
            return None;
        },
    };
    if p11 != end {
        return None;
    }
    Some(
        LogEntry {
            offset: LogOffset { secs, nanos: nanos as u32 },
            level,
            target,
            body,
        },
    )
}

/// The characters of a string slice, in order.
pub(crate) fn str_to_chars(s: &str) -> (r: Vec<char>)
    ensures
        r@ == s@,
{
    let n = s.unicode_len();
    let mut r: Vec<char> = Vec::new();
    let mut i: usize = 0;
    while i < n
        invariant
            i <= n,
            n == s@.len(),
            r@ == s@.take(i as int),
        decreases n - i,
    {
        r.push(s.get_char(i));
        proof {
            assert(s@.take(i + 1) =~= s@.take(i as int).push(s@[i as int]));
        }
        i += 1;
    }
    proof {
        assert(s@.take(n as int) =~= s@);
    }
    r
}

/// Decodes one line of text (without its terminator) as a record. Any
/// missing, malformed or ill-typed field yields `None`, as does anything at
/// all after the record's closing brace.
pub fn decode_entry(line: &str) -> (r: Option<LogEntry>)
    ensures
        r matches Some(e) ==> decode_line(line@) == Some(e@) && e.wf(),
        r is None ==> decode_line(line@) is None,
{
    let chars = str_to_chars(line);
    proof {
        assert(chars@.subrange(0, chars@.len() as int) =~= line@);
    }
    decode_range(&chars, 0, chars.len())
}

} // verus!

