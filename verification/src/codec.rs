//! The stored document: a verified writer and reader for the JSON form of
//! a task collection, and the round-trip law that ties them together.

use vstd::prelude::*;

use crate::task::{Task, TaskView};

verus! {

// ---------------------------------------------------------------------------
// Decimal digits and numbers
// ---------------------------------------------------------------------------

/// The decimal digit character for a value in 0..=9.
pub open spec fn dec_digit(n: int) -> char {
    ((48 + n) as u32) as char
}

/// The value of a decimal digit character.
pub open spec fn digit_val(c: char) -> int {
    c as u32 as int - 48
}

pub open spec fn is_digit(c: char) -> bool {
    '0' <= c && c <= '9'
}

/// The decimal text of a nonnegative number, most significant digit first.
pub open spec fn ser_nat(n: int) -> Seq<char>
    decreases n,
{
    if n < 10 {
        seq![dec_digit(n)]
    } else {
        ser_nat(n / 10) + seq![dec_digit(n % 10)]
    }
}

/// The number a digit sequence denotes.
pub open spec fn prefix_val(s: Seq<char>) -> int
    decreases s.len(),
{
    if s.len() == 0 {
        0
    } else {
        prefix_val(s.drop_last()) * 10 + digit_val(s.last())
    }
}

/// How many leading characters of `s` are decimal digits.
pub open spec fn digits_len(s: Seq<char>) -> int
    decreases s.len(),
{
    if s.len() > 0 && is_digit(s[0]) {
        1 + digits_len(s.skip(1))
    } else {
        0
    }
}

proof fn lemma_digits_len_bound(s: Seq<char>)
    ensures
        0 <= digits_len(s) <= s.len(),
    decreases s.len(),
{
    if s.len() > 0 && is_digit(s[0]) {
        lemma_digits_len_bound(s.skip(1));
    }
}

/// Every character of `ser_nat(n)` is a digit, and there is at least one.
proof fn lemma_ser_nat_digits(n: int)
    requires
        n >= 0,
    ensures
        ser_nat(n).len() >= 1,
        forall|i: int| 0 <= i < ser_nat(n).len() ==> is_digit(#[trigger] ser_nat(n)[i]),
    decreases n,
{
    if n < 10 {
        assert(is_digit(dec_digit(n)));
    } else {
        lemma_ser_nat_digits(n / 10);
        assert forall|i: int| 0 <= i < ser_nat(n).len() implies is_digit(
            #[trigger] ser_nat(n)[i],
        ) by {
            if i < ser_nat(n / 10).len() {
                assert(ser_nat(n)[i] == ser_nat(n / 10)[i]);
            } else {
                assert(ser_nat(n)[i] == dec_digit(n % 10));
                assert(is_digit(dec_digit(n % 10)));
            }
        }
    }
}

/// Reading back the digits of `ser_nat(n)` gives `n`.
proof fn lemma_prefix_val_ser_nat(n: int)
    requires
        n >= 0,
    ensures
        prefix_val(ser_nat(n)) == n,
    decreases n,
{
    if n < 10 {
        assert(ser_nat(n) =~= seq![dec_digit(n)]);
        assert(ser_nat(n).drop_last() =~= Seq::<char>::empty());
        assert(prefix_val(Seq::<char>::empty()) == 0);
        assert(ser_nat(n).last() == dec_digit(n));
        assert(prefix_val(ser_nat(n)) == prefix_val(ser_nat(n).drop_last()) * 10 + digit_val(
            ser_nat(n).last(),
        ));
        assert(digit_val(dec_digit(n)) == n);
    } else {
        lemma_prefix_val_ser_nat(n / 10);
        assert(ser_nat(n).drop_last() =~= ser_nat(n / 10));
        assert(ser_nat(n).last() == dec_digit(n % 10));
        assert(prefix_val(ser_nat(n)) == prefix_val(ser_nat(n).drop_last()) * 10 + digit_val(
            ser_nat(n).last(),
        ));
        assert(digit_val(dec_digit(n % 10)) == n % 10);
        assert(n / 10 * 10 + n % 10 == n) by (nonlinear_arith);
    }
}

/// In `digits + rest` with `rest` opening with a non-digit, exactly the
/// digit prefix is counted.
proof fn lemma_digits_len_concat(d: Seq<char>, rest: Seq<char>)
    requires
        forall|i: int| 0 <= i < d.len() ==> is_digit(#[trigger] d[i]),
        rest.len() == 0 || !is_digit(rest[0]),
    ensures
        digits_len(d + rest) == d.len(),
    decreases d.len(),
{
    if d.len() == 0 {
        assert(d + rest =~= rest);
    } else {
        assert((d + rest)[0] == d[0]);
        assert((d + rest).skip(1) =~= d.skip(1) + rest);
        assert forall|i: int| 0 <= i < d.skip(1).len() implies is_digit(#[trigger] d.skip(1)[i]) by {
            assert(d.skip(1)[i] == d[i + 1]);
        }
        lemma_digits_len_concat(d.skip(1), rest);
    }
}

/// A number token read off the front of `s`: its value and what follows.
pub open spec fn parse_nat(s: Seq<char>) -> Option<(int, Seq<char>)> {
    let n = digits_len(s);
    if n == 0 {
        None
    } else {
        Some((prefix_val(s.take(n)), s.skip(n)))
    }
}

/// Reading a written number gives the number back, whatever follows it.
proof fn lemma_parse_nat_ser(v: int, rest: Seq<char>)
    requires
        v >= 0,
        rest.len() == 0 || !is_digit(rest[0]),
    ensures
        parse_nat(ser_nat(v) + rest) == Some((v, rest)),
{
    let d = ser_nat(v);
    lemma_ser_nat_digits(v);
    lemma_digits_len_concat(d, rest);
    assert((d + rest).take(d.len() as int) =~= d);
    assert((d + rest).skip(d.len() as int) =~= rest);
    lemma_prefix_val_ser_nat(v);
}

// ---------------------------------------------------------------------------
// Strings and their escapes
// ---------------------------------------------------------------------------

/// The lowercase hexadecimal digit character for a value in 0..=15.
pub open spec fn hex_digit(n: int) -> char {
    if n < 10 {
        dec_digit(n)
    } else {
        ((87 + n) as u32) as char
    }
}

pub open spec fn is_hex(c: char) -> bool {
    is_digit(c) || ('a' <= c && c <= 'f') || ('A' <= c && c <= 'F')
}

/// The value of a hexadecimal digit character.
pub open spec fn hex_val(c: char) -> int {
    if is_digit(c) {
        digit_val(c)
    } else if 'a' <= c && c <= 'f' {
        c as u32 as int - 87
    } else {
        c as u32 as int - 55
    }
}

proof fn lemma_hex_digit_val(x: int)
    requires
        0 <= x < 16,
    ensures
        is_hex(hex_digit(x)),
        hex_val(hex_digit(x)) == x,
{
}

/// How one character is written inside a quoted string: quotes and
/// backslashes get a backslash, control characters become `\u00XX`,
/// everything else stands as itself.
pub open spec fn esc_char(c: char) -> Seq<char> {
    if c == '"' {
        seq!['\\', '"']
    } else if c == '\\' {
        seq!['\\', '\\']
    } else if (c as u32) < 32 {
        seq![
            '\\',
            'u',
            '0',
            '0',
            hex_digit(c as u32 as int / 16),
            hex_digit(c as u32 as int % 16),
        ]
    } else {
        seq![c]
    }
}

/// A text with every character written in its escaped form.
pub open spec fn esc_seq(t: Seq<char>) -> Seq<char>
    decreases t.len(),
{
    if t.len() == 0 {
        Seq::empty()
    } else {
        esc_char(t[0]) + esc_seq(t.skip(1))
    }
}

/// The written form of a text: escaped, between quotes.
pub open spec fn ser_string(t: Seq<char>) -> Seq<char> {
    seq!['"'] + esc_seq(t) + seq!['"']
}

/// The character a two-character escape denotes.
pub open spec fn unesc_two(e: char) -> Option<char> {
    if e == '"' {
        Some('"')
    } else if e == '\\' {
        Some('\\')
    } else if e == '/' {
        Some('/')
    } else if e == 'n' {
        Some('\n')
    } else if e == 't' {
        Some('\t')
    } else if e == 'r' {
        Some('\r')
    } else if e == 'b' {
        Some('\u{0008}')
    } else if e == 'f' {
        Some('\u{000C}')
    } else {
        None
    }
}

/// The inside of a quoted string read up to and including its closing
/// quote: the text it denotes and what follows the quote.
pub open spec fn parse_str_body(s: Seq<char>) -> Option<(Seq<char>, Seq<char>)>
    decreases s.len(),
{
    if s.len() == 0 {
        None
    } else if s[0] == '"' {
        Some((Seq::empty(), s.skip(1)))
    } else if s[0] == '\\' {
        if s.len() < 2 {
            None
        } else if s[1] == 'u' {
            if s.len() < 6 {
                None
            } else if !(is_hex(s[2]) && is_hex(s[3]) && is_hex(s[4]) && is_hex(s[5])) {
                None
            } else {
                let code = ((hex_val(s[2]) * 16 + hex_val(s[3])) * 16 + hex_val(s[4])) * 16
                    + hex_val(s[5]);
                if 0xD800 <= code && code < 0xE000 {
                    None
                } else {
                    match parse_str_body(s.skip(6)) {
                        Some((t, rest)) => Some((seq![(code as u32) as char] + t, rest)),
                        None => None,
                    }
                }
            }
        } else {
            match unesc_two(s[1]) {
                Some(c) => match parse_str_body(s.skip(2)) {
                    Some((t, rest)) => Some((seq![c] + t, rest)),
                    None => None,
                },
                None => None,
            }
        }
    } else {
        match parse_str_body(s.skip(1)) {
            Some((t, rest)) => Some((seq![s[0]] + t, rest)),
            None => None,
        }
    }
}

/// A quoted string read off the front of `s`.
pub open spec fn parse_string(s: Seq<char>) -> Option<(Seq<char>, Seq<char>)> {
    if s.len() == 0 || s[0] != '"' {
        None
    } else {
        parse_str_body(s.skip(1))
    }
}

/// Reading a string consumes at least one character.
proof fn lemma_parse_str_body_consumes(s: Seq<char>)
    ensures
        parse_str_body(s) matches Some((_t, rest)) ==> rest.len() < s.len(),
    decreases s.len(),
{
    if s.len() == 0 {
    } else if s[0] == '"' {
    } else if s[0] == '\\' {
        if s.len() >= 6 {
            lemma_parse_str_body_consumes(s.skip(6));
        }
        if s.len() >= 2 {
            lemma_parse_str_body_consumes(s.skip(2));
        }
    } else {
        lemma_parse_str_body_consumes(s.skip(1));
    }
}

proof fn lemma_parse_string_consumes(s: Seq<char>)
    ensures
        parse_string(s) matches Some((_t, rest)) ==> rest.len() < s.len(),
{
    if s.len() > 0 && s[0] == '"' {
        lemma_parse_str_body_consumes(s.skip(1));
    }
}

/// Reading back an escaped text with its closing quote gives the text,
/// whatever follows the quote.
proof fn lemma_parse_str_body_esc(t: Seq<char>, rest: Seq<char>)
    ensures
        parse_str_body(esc_seq(t) + seq!['"'] + rest) == Some((t, rest)),
    decreases t.len(),
{
    let s = esc_seq(t) + seq!['"'] + rest;
    if t.len() == 0 {
        assert(s =~= seq!['"'] + rest);
        assert(s[0] == '"');
        assert(s.skip(1) =~= rest);
        assert(parse_str_body(s) == Some((Seq::<char>::empty(), rest)));
        assert(t =~= Seq::<char>::empty());
    } else {
        let c = t[0];
        lemma_parse_str_body_esc(t.skip(1), rest);
        let s1 = esc_seq(t.skip(1)) + seq!['"'] + rest;
        assert(s =~= esc_char(c) + s1);
        if c == '"' {
            assert(s[0] == '\\' && s[1] == '"');
            assert(unesc_two(s[1]) == Some('"'));
            assert(s.skip(2) =~= s1);
            assert(seq![c] + t.skip(1) =~= t);
        } else if c == '\\' {
            assert(s[0] == '\\' && s[1] == '\\');
            assert(unesc_two(s[1]) == Some('\\'));
            assert(s.skip(2) =~= s1);
            assert(seq![c] + t.skip(1) =~= t);
        } else if (c as u32) < 32 {
            let hi = c as u32 as int / 16;
            let lo = c as u32 as int % 16;
            assert(s[0] == '\\' && s[1] == 'u' && s[2] == '0' && s[3] == '0');
            assert(s[4] == hex_digit(hi) && s[5] == hex_digit(lo));
            assert(s.len() >= 6);
            lemma_hex_digit_val(hi);
            lemma_hex_digit_val(lo);
            assert(is_hex('0') && hex_val('0') == 0);
            let code = ((hex_val(s[2]) * 16 + hex_val(s[3])) * 16 + hex_val(s[4])) * 16 + hex_val(
                s[5],
            );
            assert(code == hi * 16 + lo);
            assert(hi * 16 + lo == c as u32 as int) by (nonlinear_arith)
                requires
                    hi == c as u32 as int / 16,
                    lo == c as u32 as int % 16,
            ;
            assert(code < 32);
            assert(code as u32 == c as u32);
            vstd::utf8::char_u32_cast(c, code as u32);
            assert((code as u32) as char == c);
            assert(s.skip(6) =~= s1);
            assert(seq![c] + t.skip(1) =~= t);
        } else {
            assert(s[0] == c);
            assert(c != '"' && c != '\\');
            assert(s.skip(1) =~= s1);
            assert(seq![c] + t.skip(1) =~= t);
        }
    }
}

/// Reading a written string gives the text back, whatever follows it.
proof fn lemma_parse_string_ser(t: Seq<char>, rest: Seq<char>)
    ensures
        parse_string(ser_string(t) + rest) == Some((t, rest)),
{
    let s = ser_string(t) + rest;
    assert(s[0] == '"');
    assert(s.skip(1) =~= esc_seq(t) + seq!['"'] + rest);
    lemma_parse_str_body_esc(t, rest);
}

// ---------------------------------------------------------------------------
// Whitespace and literals
// ---------------------------------------------------------------------------

pub open spec fn is_ws(c: char) -> bool {
    c == ' ' || c == '\n' || c == '\t' || c == '\r'
}

/// How many leading characters of `s` are whitespace.
pub open spec fn ws_len(s: Seq<char>) -> int
    decreases s.len(),
{
    if s.len() > 0 && is_ws(s[0]) {
        1 + ws_len(s.skip(1))
    } else {
        0
    }
}

proof fn lemma_ws_len_bound(s: Seq<char>)
    ensures
        0 <= ws_len(s) <= s.len(),
    decreases s.len(),
{
    if s.len() > 0 && is_ws(s[0]) {
        lemma_ws_len_bound(s.skip(1));
    }
}

/// `ws_len` counts exactly up to the first non-whitespace character.
proof fn lemma_ws_len_at(s: Seq<char>, i: int)
    requires
        0 <= i <= s.len(),
        forall|k: int| 0 <= k < i ==> is_ws(#[trigger] s[k]),
        i == s.len() || !is_ws(s[i]),
    ensures
        ws_len(s) == i,
    decreases i,
{
    if i == 0 {
    } else {
        assert(is_ws(s[0]));
        assert forall|k: int| 0 <= k < i - 1 implies is_ws(#[trigger] s.skip(1)[k]) by {
            assert(s.skip(1)[k] == s[k + 1]);
        }
        if i - 1 < s.skip(1).len() {
            assert(s.skip(1)[i - 1] == s[i]);
        }
        lemma_ws_len_at(s.skip(1), i - 1);
    }
}

/// `lit` stands letter for letter at the front of `s`.
pub open spec fn match_lit(s: Seq<char>, lit: Seq<char>) -> bool {
    lit.len() <= s.len() && s.take(lit.len() as int) == lit
}

pub open spec fn lit_true() -> Seq<char> {
    seq!['t', 'r', 'u', 'e']
}

pub open spec fn lit_false() -> Seq<char> {
    seq!['f', 'a', 'l', 's', 'e']
}

pub open spec fn lit_null() -> Seq<char> {
    seq!['n', 'u', 'l', 'l']
}

pub open spec fn ser_bool(b: bool) -> Seq<char> {
    if b {
        lit_true()
    } else {
        lit_false()
    }
}

/// A boolean token read off the front of `s`.
pub open spec fn parse_bool(s: Seq<char>) -> Option<(bool, Seq<char>)> {
    if match_lit(s, lit_true()) {
        Some((true, s.skip(4)))
    } else if match_lit(s, lit_false()) {
        Some((false, s.skip(5)))
    } else {
        None
    }
}

proof fn lemma_parse_bool_ser(b: bool, rest: Seq<char>)
    ensures
        parse_bool(ser_bool(b) + rest) == Some((b, rest)),
{
    let s = ser_bool(b) + rest;
    if b {
        assert(s.take(4) =~= lit_true());
        assert(s.skip(4) =~= rest);
    } else {
        if match_lit(s, lit_true()) {
            assert(s.take(4)[0] == s[0]);
        }
        assert(s.take(5) =~= lit_false());
        assert(s.skip(5) =~= rest);
    }
}

// ---------------------------------------------------------------------------
// Dates and priorities as stored text
// ---------------------------------------------------------------------------

use crate::task::{days_in_month, Date, Priority};

pub open spec fn two_digits(n: int) -> Seq<char> {
    seq![dec_digit(n / 10), dec_digit(n % 10)]
}

pub open spec fn four_digits(n: int) -> Seq<char> {
    seq![dec_digit(n / 1000), dec_digit(n / 100 % 10), dec_digit(n / 10 % 10), dec_digit(n % 10)]
}

/// The `YYYY-MM-DD` text of a date.
pub open spec fn date_chars(d: Date) -> Seq<char> {
    four_digits(d.year as int) + seq!['-'] + two_digits(d.month as int) + seq!['-'] + two_digits(
        d.day as int,
    )
}

/// The date a ten-character `YYYY-MM-DD` text denotes, if it is one and
/// names a real calendar date.
pub open spec fn date_of_chars(t: Seq<char>) -> Option<Date> {
    if t.len() == 10 && is_digit(t[0]) && is_digit(t[1]) && is_digit(t[2]) && is_digit(t[3]) && t[4]
        == '-' && is_digit(t[5]) && is_digit(t[6]) && t[7] == '-' && is_digit(t[8]) && is_digit(
        t[9],
    ) {
        let y = ((digit_val(t[0]) * 10 + digit_val(t[1])) * 10 + digit_val(t[2])) * 10 + digit_val(
            t[3],
        );
        let m = digit_val(t[5]) * 10 + digit_val(t[6]);
        let dd = digit_val(t[8]) * 10 + digit_val(t[9]);
        let date = Date { year: y as u32, month: m as u32, day: dd as u32 };
        if date.valid() {
            Some(date)
        } else {
            None
        }
    } else {
        None
    }
}

/// Reading back the text of a real date gives the date.
proof fn lemma_date_of_chars_ser(d: Date)
    requires
        d.valid(),
    ensures
        date_of_chars(date_chars(d)) == Some(d),
{
    let t = date_chars(d);
    let y = d.year as int;
    let m = d.month as int;
    let dd = d.day as int;
    assert(t.len() == 10);
    assert(t[0] == dec_digit(y / 1000) && t[1] == dec_digit(y / 100 % 10) && t[2] == dec_digit(
        y / 10 % 10,
    ) && t[3] == dec_digit(y % 10));
    assert(t[4] == '-' && t[7] == '-');
    assert(t[5] == dec_digit(m / 10) && t[6] == dec_digit(m % 10));
    assert(t[8] == dec_digit(dd / 10) && t[9] == dec_digit(dd % 10));
    assert(((y / 1000 * 10 + y / 100 % 10) * 10 + y / 10 % 10) * 10 + y % 10 == y) by (nonlinear_arith)
        requires
            0 <= y < 10000,
    ;
    assert(m / 10 * 10 + m % 10 == m) by (nonlinear_arith);
    assert(dd / 10 * 10 + dd % 10 == dd) by (nonlinear_arith);
}

pub open spec fn prio_chars(p: Priority) -> Seq<char> {
    match p {
        Priority::Low => seq!['l', 'o', 'w'],
        Priority::Normal => seq!['n', 'o', 'r', 'm', 'a', 'l'],
        Priority::High => seq!['h', 'i', 'g', 'h'],
    }
}

/// The priority one of the lowercase words "low", "normal", "high" denotes.
pub open spec fn prio_of_chars(t: Seq<char>) -> Option<Priority> {
    if t == prio_chars(Priority::Low) {
        Some(Priority::Low)
    } else if t == prio_chars(Priority::Normal) {
        Some(Priority::Normal)
    } else if t == prio_chars(Priority::High) {
        Some(Priority::High)
    } else {
        None
    }
}

proof fn lemma_prio_of_chars_ser(p: Priority)
    ensures
        prio_of_chars(prio_chars(p)) == Some(p),
{
    match p {
        Priority::Low => {},
        Priority::Normal => {
            assert(prio_chars(Priority::Normal).len() != prio_chars(Priority::Low).len());
        },
        Priority::High => {
            assert(prio_chars(Priority::High).len() != prio_chars(Priority::Low).len());
            assert(prio_chars(Priority::High).len() != prio_chars(Priority::Normal).len());
        },
    }
}

// ---------------------------------------------------------------------------
// The tags array
// ---------------------------------------------------------------------------

/// The written tail of a tag array: each further tag after a comma, then
/// the closing bracket.
pub open spec fn ser_tags_rest(tags: Seq<Seq<char>>) -> Seq<char>
    decreases tags.len(),
{
    if tags.len() == 0 {
        seq![']']
    } else {
        seq![','] + ser_string(tags[0]) + ser_tags_rest(tags.skip(1))
    }
}

/// The written form of a tag array.
pub open spec fn ser_tags(tags: Seq<Seq<char>>) -> Seq<char> {
    if tags.len() == 0 {
        seq!['[', ']']
    } else {
        seq!['['] + ser_string(tags[0]) + ser_tags_rest(tags.skip(1))
    }
}

/// The tail of a tag array read off the front of `s`: comma-led further
/// tags up to and including the closing bracket.
pub open spec fn parse_tags_rest(s: Seq<char>) -> Option<(Seq<Seq<char>>, Seq<char>)>
    decreases s.len(),
    via parse_tags_rest_dec
{
    let w = ws_len(s);
    let s1 = s.skip(w);
    if s1.len() == 0 {
        None
    } else if s1[0] == ']' {
        Some((Seq::empty(), s1.skip(1)))
    } else if s1[0] == ',' {
        let w2 = ws_len(s1.skip(1));
        match parse_string(s1.skip(1).skip(w2)) {
            Some((t, rest)) => match parse_tags_rest(rest) {
                Some((ts, rest2)) => Some((seq![t] + ts, rest2)),
                None => None,
            },
            None => None,
        }
    } else {
        None
    }
}

#[via_fn]
proof fn parse_tags_rest_dec(s: Seq<char>) {
    lemma_ws_len_bound(s);
    let w = ws_len(s);
    let s1 = s.skip(w);
    if s1.len() > 0 && s1[0] != ']' && s1[0] == ',' {
        lemma_ws_len_bound(s1.skip(1));
        let w2 = ws_len(s1.skip(1));
        lemma_parse_string_consumes(s1.skip(1).skip(w2));
    }
}

proof fn lemma_parse_tags_rest_consumes(s: Seq<char>)
    ensures
        parse_tags_rest(s) matches Some((_t, rest)) ==> rest.len() < s.len(),
    decreases s.len(),
{
    lemma_ws_len_bound(s);
    let w = ws_len(s);
    let s1 = s.skip(w);
    if s1.len() > 0 && s1[0] != ']' && s1[0] == ',' {
        lemma_ws_len_bound(s1.skip(1));
        let w2 = ws_len(s1.skip(1));
        lemma_parse_string_consumes(s1.skip(1).skip(w2));
        match parse_string(s1.skip(1).skip(w2)) {
            Some((_t, rest)) => lemma_parse_tags_rest_consumes(rest),
            None => {},
        }
    }
}

/// A whole tag array read off the front of `s`.
pub open spec fn parse_tags(s: Seq<char>) -> Option<(Seq<Seq<char>>, Seq<char>)> {
    if s.len() == 0 || s[0] != '[' {
        None
    } else {
        let w = ws_len(s.skip(1));
        let s1 = s.skip(1).skip(w);
        if s1.len() == 0 {
            None
        } else if s1[0] == ']' {
            Some((Seq::empty(), s1.skip(1)))
        } else {
            match parse_string(s1) {
                Some((t, rest)) => match parse_tags_rest(rest) {
                    Some((ts, rest2)) => Some((seq![t] + ts, rest2)),
                    None => None,
                },
                None => None,
            }
        }
    }
}

proof fn lemma_parse_tags_consumes(s: Seq<char>)
    ensures
        parse_tags(s) matches Some((_t, rest)) ==> rest.len() < s.len(),
{
    if s.len() > 0 && s[0] == '[' {
        lemma_ws_len_bound(s.skip(1));
        let w = ws_len(s.skip(1));
        let s1 = s.skip(1).skip(w);
        if s1.len() > 0 && s1[0] != ']' {
            lemma_parse_string_consumes(s1);
            match parse_string(s1) {
                Some((_t, rest)) => lemma_parse_tags_rest_consumes(rest),
                None => {},
            }
        }
    }
}

proof fn lemma_parse_tags_rest_ser(tags: Seq<Seq<char>>, rest: Seq<char>)
    ensures
        parse_tags_rest(ser_tags_rest(tags) + rest) == Some((tags, rest)),
    decreases tags.len(),
{
    let s = ser_tags_rest(tags) + rest;
    if tags.len() == 0 {
        assert(s =~= seq![']'] + rest);
        assert(ws_len(s) == 0);
        assert(s.skip(0) =~= s);
        assert(s.skip(1) =~= rest);
        assert(tags =~= Seq::<Seq<char>>::empty());
    } else {
        let s1tail = ser_tags_rest(tags.skip(1)) + rest;
        assert(s =~= seq![','] + ser_string(tags[0]) + s1tail);
        assert(s[0] == ',');
        assert(ws_len(s) == 0);
        assert(s.skip(0) =~= s);
        assert(s.skip(1) =~= ser_string(tags[0]) + s1tail);
        assert(s.skip(1)[0] == '"');
        assert(ws_len(s.skip(1)) == 0);
        assert(s.skip(1).skip(0) =~= s.skip(1));
        lemma_parse_string_ser(tags[0], s1tail);
        lemma_parse_tags_rest_ser(tags.skip(1), rest);
        assert(seq![tags[0]] + tags.skip(1) =~= tags);
    }
}

proof fn lemma_parse_tags_ser(tags: Seq<Seq<char>>, rest: Seq<char>)
    ensures
        parse_tags(ser_tags(tags) + rest) == Some((tags, rest)),
{
    let s = ser_tags(tags) + rest;
    assert(s[0] == '[');
    if tags.len() == 0 {
        assert(s =~= seq!['[', ']'] + rest);
        assert(s.skip(1)[0] == ']');
        assert(ws_len(s.skip(1)) == 0);
        assert(s.skip(1).skip(0) =~= s.skip(1));
        assert(s.skip(1).skip(1) =~= rest);
        assert(tags =~= Seq::<Seq<char>>::empty());
    } else {
        let s1tail = ser_tags_rest(tags.skip(1)) + rest;
        assert(s.skip(1) =~= ser_string(tags[0]) + s1tail);
        assert(s.skip(1)[0] == '"');
        assert(ws_len(s.skip(1)) == 0);
        assert(s.skip(1).skip(0) =~= s.skip(1));
        lemma_parse_string_ser(tags[0], s1tail);
        lemma_parse_tags_rest_ser(tags.skip(1), rest);
        assert(seq![tags[0]] + tags.skip(1) =~= tags);
    }
}

// ---------------------------------------------------------------------------
// Task records and the whole document
// ---------------------------------------------------------------------------

pub open spec fn key_id() -> Seq<char> {
    seq!['i', 'd']
}

pub open spec fn key_text() -> Seq<char> {
    seq!['t', 'e', 'x', 't']
}

pub open spec fn key_done() -> Seq<char> {
    seq!['d', 'o', 'n', 'e']
}

pub open spec fn key_due() -> Seq<char> {
    seq!['d', 'u', 'e']
}

pub open spec fn key_priority() -> Seq<char> {
    seq!['p', 'r', 'i', 'o', 'r', 'i', 't', 'y']
}

pub open spec fn key_tags() -> Seq<char> {
    seq!['t', 'a', 'g', 's']
}

/// The fields collected so far while reading one task record. A doubled
/// field is an error, so each starts unset.
pub struct FieldsAcc {
    pub id: Option<int>,
    pub text: Option<Seq<char>>,
    pub done: Option<bool>,
    pub due: Option<Option<Date>>,
    pub priority: Option<Priority>,
    pub tags: Option<Seq<Seq<char>>>,
}

pub open spec fn empty_acc() -> FieldsAcc {
    FieldsAcc { id: None, text: None, done: None, due: None, priority: None, tags: None }
}

/// One `"key": value` pair read off the front of `s` into the accumulator.
/// Unknown keys and doubled keys are errors.
#[verifier::opaque]
pub open spec fn parse_field(s: Seq<char>, acc: FieldsAcc) -> Option<(FieldsAcc, Seq<char>)> {
    match parse_string(s) {
        Some((key, s1)) => {
            let w = ws_len(s1);
            let s2 = s1.skip(w);
            if s2.len() == 0 || s2[0] != ':' {
                None
            } else {
                let w2 = ws_len(s2.skip(1));
                let s3 = s2.skip(1).skip(w2);
                if key == key_id() {
                    if acc.id is Some {
                        None
                    } else {
                        match parse_nat(s3) {
                            Some((v, rest)) => if v <= usize::MAX as int {
                                Some((FieldsAcc { id: Some(v), ..acc }, rest))
                            } else {
                                None
                            },
                            None => None,
                        }
                    }
                } else if key == key_text() {
                    if acc.text is Some {
                        None
                    } else {
                        match parse_string(s3) {
                            Some((t, rest)) => Some((FieldsAcc { text: Some(t), ..acc }, rest)),
                            None => None,
                        }
                    }
                } else if key == key_done() {
                    if acc.done is Some {
                        None
                    } else {
                        match parse_bool(s3) {
                            Some((b, rest)) => Some((FieldsAcc { done: Some(b), ..acc }, rest)),
                            None => None,
                        }
                    }
                } else if key == key_due() {
                    if acc.due is Some {
                        None
                    } else if match_lit(s3, lit_null()) {
                        Some((FieldsAcc { due: Some(None), ..acc }, s3.skip(4)))
                    } else {
                        match parse_string(s3) {
                            Some((t, rest)) => match date_of_chars(t) {
                                Some(d) => Some((FieldsAcc { due: Some(Some(d)), ..acc }, rest)),
                                None => None,
                            },
                            None => None,
                        }
                    }
                } else if key == key_priority() {
                    if acc.priority is Some {
                        None
                    } else {
                        match parse_string(s3) {
                            Some((t, rest)) => match prio_of_chars(t) {
                                Some(p) => Some(
                                    (FieldsAcc { priority: Some(p), ..acc }, rest),
                                ),
                                None => None,
                            },
                            None => None,
                        }
                    }
                } else if key == key_tags() {
                    if acc.tags is Some {
                        None
                    } else {
                        match parse_tags(s3) {
                            Some((ts, rest)) => Some((FieldsAcc { tags: Some(ts), ..acc }, rest)),
                            None => None,
                        }
                    }
                } else {
                    None
                }
            }
        },
        None => None,
    }
}

proof fn lemma_parse_field_consumes(s: Seq<char>, acc: FieldsAcc)
    ensures
        parse_field(s, acc) matches Some((_a, rest)) ==> rest.len() < s.len(),
{
    reveal(parse_field);
    lemma_parse_string_consumes(s);
    match parse_string(s) {
        Some((key, s1)) => {
            lemma_ws_len_bound(s1);
            let w = ws_len(s1);
            let s2 = s1.skip(w);
            if s2.len() > 0 && s2[0] == ':' {
                lemma_ws_len_bound(s2.skip(1));
                let w2 = ws_len(s2.skip(1));
                let s3 = s2.skip(1).skip(w2);
                lemma_parse_string_consumes(s3);
                lemma_parse_tags_consumes(s3);
                lemma_digits_len_bound(s3);
            }
        },
        None => {},
    }
}

/// The fields of a task record read off the front of `s`, up to and
/// including the closing brace.
pub open spec fn parse_fields(s: Seq<char>, acc: FieldsAcc) -> Option<(FieldsAcc, Seq<char>)>
    decreases s.len(),
    via parse_fields_dec
{
    match parse_field(s, acc) {
        Some((acc2, s1)) => {
            let w = ws_len(s1);
            let s2 = s1.skip(w);
            if s2.len() == 0 {
                None
            } else if s2[0] == '}' {
                Some((acc2, s2.skip(1)))
            } else if s2[0] == ',' {
                let w2 = ws_len(s2.skip(1));
                parse_fields(s2.skip(1).skip(w2), acc2)
            } else {
                None
            }
        },
        None => None,
    }
}

#[via_fn]
proof fn parse_fields_dec(s: Seq<char>, acc: FieldsAcc) {
    reveal(parse_field);
    lemma_parse_field_consumes(s, acc);
    match parse_field(s, acc) {
        Some((_acc2, s1)) => {
            lemma_ws_len_bound(s1);
            let w = ws_len(s1);
            let s2 = s1.skip(w);
            if s2.len() > 0 && s2[0] == ',' {
                lemma_ws_len_bound(s2.skip(1));
            }
        },
        None => {},
    }
}

proof fn lemma_parse_fields_consumes(s: Seq<char>, acc: FieldsAcc)
    ensures
        parse_fields(s, acc) matches Some((_a, rest)) ==> rest.len() < s.len(),
    decreases s.len(),
{
    lemma_parse_field_consumes(s, acc);
    match parse_field(s, acc) {
        Some((acc2, s1)) => {
            lemma_ws_len_bound(s1);
            let w = ws_len(s1);
            let s2 = s1.skip(w);
            if s2.len() > 0 && s2[0] == ',' {
                lemma_ws_len_bound(s2.skip(1));
                let w2 = ws_len(s2.skip(1));
                lemma_parse_fields_consumes(s2.skip(1).skip(w2), acc2);
            }
        },
        None => {},
    }
}

/// One task record read off the front of `s`. The id, text and done
/// fields must be present; due, priority and tags default when missing.
pub open spec fn parse_task(s: Seq<char>) -> Option<(TaskView, Seq<char>)> {
    if s.len() == 0 || s[0] != '{' {
        None
    } else {
        let w = ws_len(s.skip(1));
        match parse_fields(s.skip(1).skip(w), empty_acc()) {
            Some((acc, rest)) => match (acc.id, acc.text, acc.done) {
                (Some(id), Some(text), Some(done)) => Some(
                    (
                        TaskView {
                            id: id,
                            text: text,
                            done: done,
                            due: if acc.due is Some {
                                acc.due.unwrap()
                            } else {
                                None
                            },
                            priority: if acc.priority is Some {
                                acc.priority.unwrap()
                            } else {
                                Priority::Normal
                            },
                            tags: if acc.tags is Some {
                                acc.tags.unwrap()
                            } else {
                                Seq::empty()
                            },
                        },
                        rest,
                    ),
                ),
                _ => None,
            },
            None => None,
        }
    }
}

proof fn lemma_parse_task_consumes(s: Seq<char>)
    ensures
        parse_task(s) matches Some((_t, rest)) ==> rest.len() < s.len(),
{
    if s.len() > 0 && s[0] == '{' {
        lemma_ws_len_bound(s.skip(1));
        let w = ws_len(s.skip(1));
        lemma_parse_fields_consumes(s.skip(1).skip(w), empty_acc());
    }
}

/// The written tail of the document: each further record after a comma,
/// then the closing bracket.
pub open spec fn ser_tasks_rest(ts: Seq<TaskView>) -> Seq<char>
    decreases ts.len(),
{
    if ts.len() == 0 {
        seq![']']
    } else {
        seq![','] + ser_task(ts[0]) + ser_tasks_rest(ts.skip(1))
    }
}

/// The written `"id": N` field of a record.
pub open spec fn seg_id(t: TaskView) -> Seq<char> {
    ser_string(key_id()) + seq![':'] + ser_nat(t.id)
}

/// The written `"text": S` field of a record.
pub open spec fn seg_text(t: TaskView) -> Seq<char> {
    ser_string(key_text()) + seq![':'] + ser_string(t.text)
}

/// The written `"done": B` field of a record.
pub open spec fn seg_done(t: TaskView) -> Seq<char> {
    ser_string(key_done()) + seq![':'] + ser_bool(t.done)
}

/// The written `"due": D` field of a record: a date string, or `null`.
pub open spec fn seg_due(t: TaskView) -> Seq<char> {
    ser_string(key_due()) + seq![':'] + (match t.due {
        Some(d) => ser_string(date_chars(d)),
        None => lit_null(),
    })
}

/// The written `"priority": P` field of a record.
pub open spec fn seg_prio(t: TaskView) -> Seq<char> {
    ser_string(key_priority()) + seq![':'] + ser_string(prio_chars(t.priority))
}

/// The written `"tags": [...]` field of a record.
pub open spec fn seg_tags(t: TaskView) -> Seq<char> {
    ser_string(key_tags()) + seq![':'] + ser_tags(t.tags)
}

/// The written form of one task record, fields in their fixed order.
#[verifier::opaque]
pub open spec fn ser_task(t: TaskView) -> Seq<char> {
    seq!['{'] + seg_id(t) + seq![','] + seg_text(t) + seq![','] + seg_done(t) + seq![','] + seg_due(
        t,
    ) + seq![','] + seg_prio(t) + seq![','] + seg_tags(t) + seq!['}']
}

/// The written form of the whole document.
pub open spec fn ser_tasks(ts: Seq<TaskView>) -> Seq<char> {
    if ts.len() == 0 {
        seq!['[', ']']
    } else {
        seq!['['] + ser_task(ts[0]) + ser_tasks_rest(ts.skip(1))
    }
}

/// The tail of the document read off the front of `s`.
pub open spec fn parse_tasks_rest(s: Seq<char>) -> Option<(Seq<TaskView>, Seq<char>)>
    decreases s.len(),
    via parse_tasks_rest_dec
{
    let w = ws_len(s);
    let s1 = s.skip(w);
    if s1.len() == 0 {
        None
    } else if s1[0] == ']' {
        Some((Seq::empty(), s1.skip(1)))
    } else if s1[0] == ',' {
        let w2 = ws_len(s1.skip(1));
        match parse_task(s1.skip(1).skip(w2)) {
            Some((t, rest)) => match parse_tasks_rest(rest) {
                Some((ts, rest2)) => Some((seq![t] + ts, rest2)),
                None => None,
            },
            None => None,
        }
    } else {
        None
    }
}

#[via_fn]
proof fn parse_tasks_rest_dec(s: Seq<char>) {
    lemma_ws_len_bound(s);
    let w = ws_len(s);
    let s1 = s.skip(w);
    if s1.len() > 0 && s1[0] != ']' && s1[0] == ',' {
        lemma_ws_len_bound(s1.skip(1));
        let w2 = ws_len(s1.skip(1));
        lemma_parse_task_consumes(s1.skip(1).skip(w2));
    }
}

/// The whole document: a bracketed list of task records with nothing but
/// whitespace after it.
pub open spec fn parse_doc(s: Seq<char>) -> Option<Seq<TaskView>> {
    let w = ws_len(s);
    let s1 = s.skip(w);
    if s1.len() == 0 || s1[0] != '[' {
        None
    } else {
        let w2 = ws_len(s1.skip(1));
        let s2 = s1.skip(1).skip(w2);
        if s2.len() == 0 {
            None
        } else if s2[0] == ']' {
            if ws_len(s2.skip(1)) == s2.skip(1).len() {
                Some(Seq::empty())
            } else {
                None
            }
        } else {
            match parse_task(s2) {
                Some((t, rest)) => match parse_tasks_rest(rest) {
                    Some((ts, rest2)) => if ws_len(rest2) == rest2.len() {
                        Some(seq![t] + ts)
                    } else {
                        None
                    },
                    None => None,
                },
                None => None,
            }
        }
    }
}

// ---------------------------------------------------------------------------
// The round trip: reading a written document gives the collection back
// ---------------------------------------------------------------------------

/// A task the store can write: its id fits the machine word it came from
/// and its due date, if any, is a real calendar date.
pub open spec fn storable(t: TaskView) -> bool {
    &&& 0 <= t.id <= usize::MAX as int
    &&& (t.due matches Some(d) ==> d.valid())
}

pub open spec fn storable_all(ts: Seq<TaskView>) -> bool {
    forall|i: int| 0 <= i < ts.len() ==> storable(#[trigger] ts[i])
}

proof fn lemma_keys_distinct()
    ensures
        key_text() != key_id(),
        key_done() != key_id(),
        key_done() != key_text(),
        key_due() != key_id(),
        key_due() != key_text(),
        key_due() != key_done(),
        key_priority() != key_id(),
        key_priority() != key_text(),
        key_priority() != key_done(),
        key_priority() != key_due(),
        key_tags() != key_id(),
        key_tags() != key_text(),
        key_tags() != key_done(),
        key_tags() != key_due(),
        key_tags() != key_priority(),
{
    assert(key_done()[0] == 'd' && key_text()[0] == 't');
    assert(key_tags()[1] == 'a' && key_text()[1] == 'e');
    assert(key_tags()[0] == 't' && key_done()[0] == 'd');
}

/// One written field between a `{` or `,` and the `,` or `}` that
/// follows it: what `parse_field` makes of it.
proof fn lemma_field_id_ser(t: TaskView, r: Seq<char>, acc: FieldsAcc)
    requires
        acc.id is None,
        0 <= t.id <= usize::MAX as int,
        r.len() > 0,
        r[0] == ',' || r[0] == '}',
    ensures
        parse_field(seg_id(t) + r, acc) == Some((FieldsAcc { id: Some(t.id), ..acc }, r)),
{
    reveal(parse_field);
    assert(seg_id(t) + r =~= ser_string(key_id()) + (seq![':'] + ser_nat(t.id) + r));
    lemma_parse_string_ser(key_id(), seq![':'] + ser_nat(t.id) + r);
    let v = seq![':'] + ser_nat(t.id) + r;
    assert(ws_len(v) == 0);
    assert(v.skip(0) =~= v);
    assert(v[0] == ':');
    assert(v.skip(1) =~= ser_nat(t.id) + r);
    lemma_ser_nat_digits(t.id);
    assert((ser_nat(t.id) + r)[0] == ser_nat(t.id)[0]);
    assert(ws_len(v.skip(1)) == 0);
    assert(v.skip(1).skip(0) =~= v.skip(1));
    assert(!is_digit(r[0]));
    lemma_parse_nat_ser(t.id, r);
}

proof fn lemma_field_text_ser(t: TaskView, r: Seq<char>, acc: FieldsAcc)
    requires
        acc.text is None,
        r.len() > 0,
        r[0] == ',' || r[0] == '}',
    ensures
        parse_field(seg_text(t) + r, acc) == Some((FieldsAcc { text: Some(t.text), ..acc }, r)),
{
    reveal(parse_field);
    lemma_keys_distinct();
    assert(seg_text(t) + r =~= ser_string(key_text()) + (seq![':'] + ser_string(t.text) + r));
    lemma_parse_string_ser(key_text(), seq![':'] + ser_string(t.text) + r);
    let v = seq![':'] + ser_string(t.text) + r;
    assert(ws_len(v) == 0);
    assert(v.skip(0) =~= v);
    assert(v[0] == ':');
    assert(v.skip(1) =~= ser_string(t.text) + r);
    assert((ser_string(t.text) + r)[0] == '"');
    assert(ws_len(v.skip(1)) == 0);
    assert(v.skip(1).skip(0) =~= v.skip(1));
    lemma_parse_string_ser(t.text, r);
}

proof fn lemma_field_done_ser(t: TaskView, r: Seq<char>, acc: FieldsAcc)
    requires
        acc.done is None,
        r.len() > 0,
        r[0] == ',' || r[0] == '}',
    ensures
        parse_field(seg_done(t) + r, acc) == Some((FieldsAcc { done: Some(t.done), ..acc }, r)),
{
    reveal(parse_field);
    lemma_keys_distinct();
    assert(seg_done(t) + r =~= ser_string(key_done()) + (seq![':'] + ser_bool(t.done) + r));
    lemma_parse_string_ser(key_done(), seq![':'] + ser_bool(t.done) + r);
    let v = seq![':'] + ser_bool(t.done) + r;
    assert(ws_len(v) == 0);
    assert(v.skip(0) =~= v);
    assert(v[0] == ':');
    assert(v.skip(1) =~= ser_bool(t.done) + r);
    assert((ser_bool(t.done) + r)[0] == ser_bool(t.done)[0]);
    assert(ws_len(v.skip(1)) == 0);
    assert(v.skip(1).skip(0) =~= v.skip(1));
    lemma_parse_bool_ser(t.done, r);
}

proof fn lemma_field_due_ser(t: TaskView, r: Seq<char>, acc: FieldsAcc)
    requires
        acc.due is None,
        t.due matches Some(d) ==> d.valid(),
        r.len() > 0,
        r[0] == ',' || r[0] == '}',
    ensures
        parse_field(seg_due(t) + r, acc) == Some((FieldsAcc { due: Some(t.due), ..acc }, r)),
{
    reveal(parse_field);
    lemma_keys_distinct();
    let due_chars = match t.due {
        Some(d) => ser_string(date_chars(d)),
        None => lit_null(),
    };
    assert(seg_due(t) + r =~= ser_string(key_due()) + (seq![':'] + due_chars + r));
    lemma_parse_string_ser(key_due(), seq![':'] + due_chars + r);
    let v = seq![':'] + due_chars + r;
    assert(ws_len(v) == 0);
    assert(v.skip(0) =~= v);
    assert(v[0] == ':');
    assert(v.skip(1) =~= due_chars + r);
    match t.due {
        Some(d) => {
            assert((due_chars + r)[0] == '"');
            assert(ws_len(v.skip(1)) == 0);
            assert(v.skip(1).skip(0) =~= v.skip(1));
            if match_lit(due_chars + r, lit_null()) {
                assert((due_chars + r).take(4)[0] == (due_chars + r)[0]);
            }
            lemma_parse_string_ser(date_chars(d), r);
            lemma_date_of_chars_ser(d);
        },
        None => {
            assert((due_chars + r)[0] == 'n');
            assert(ws_len(v.skip(1)) == 0);
            assert(v.skip(1).skip(0) =~= v.skip(1));
            assert((due_chars + r).take(4) =~= lit_null());
            assert((due_chars + r).skip(4) =~= r);
        },
    }
}

proof fn lemma_field_prio_ser(t: TaskView, r: Seq<char>, acc: FieldsAcc)
    requires
        acc.priority is None,
        r.len() > 0,
        r[0] == ',' || r[0] == '}',
    ensures
        parse_field(seg_prio(t) + r, acc) == Some(
            (FieldsAcc { priority: Some(t.priority), ..acc }, r),
        ),
{
    reveal(parse_field);
    lemma_keys_distinct();
    assert(seg_prio(t) + r =~= ser_string(key_priority()) + (seq![':'] + ser_string(
        prio_chars(t.priority),
    ) + r));
    lemma_parse_string_ser(key_priority(), seq![':'] + ser_string(prio_chars(t.priority)) + r);
    let v = seq![':'] + ser_string(prio_chars(t.priority)) + r;
    assert(ws_len(v) == 0);
    assert(v.skip(0) =~= v);
    assert(v[0] == ':');
    assert(v.skip(1) =~= ser_string(prio_chars(t.priority)) + r);
    assert((ser_string(prio_chars(t.priority)) + r)[0] == '"');
    assert(ws_len(v.skip(1)) == 0);
    assert(v.skip(1).skip(0) =~= v.skip(1));
    lemma_parse_string_ser(prio_chars(t.priority), r);
    lemma_prio_of_chars_ser(t.priority);
}

proof fn lemma_field_tags_ser(t: TaskView, r: Seq<char>, acc: FieldsAcc)
    requires
        acc.tags is None,
        r.len() > 0,
        r[0] == ',' || r[0] == '}',
    ensures
        parse_field(seg_tags(t) + r, acc) == Some((FieldsAcc { tags: Some(t.tags), ..acc }, r)),
{
    reveal(parse_field);
    lemma_keys_distinct();
    assert(seg_tags(t) + r =~= ser_string(key_tags()) + (seq![':'] + ser_tags(t.tags) + r));
    lemma_parse_string_ser(key_tags(), seq![':'] + ser_tags(t.tags) + r);
    let v = seq![':'] + ser_tags(t.tags) + r;
    assert(ws_len(v) == 0);
    assert(v.skip(0) =~= v);
    assert(v[0] == ':');
    assert(v.skip(1) =~= ser_tags(t.tags) + r);
    assert((ser_tags(t.tags) + r)[0] == '[');
    assert(ws_len(v.skip(1)) == 0);
    assert(v.skip(1).skip(0) =~= v.skip(1));
    lemma_parse_tags_ser(t.tags, r);
}

/// One `parse_fields` step across the comma after a parsed field.
proof fn lemma_fields_step(s: Seq<char>, acc: FieldsAcc, acc2: FieldsAcc, r: Seq<char>)
    requires
        parse_field(s, acc) == Some((acc2, r)),
        r.len() > 1,
        r[0] == ',',
        !is_ws(r[1]),
    ensures
        parse_fields(s, acc) == parse_fields(r.skip(1), acc2),
{
    assert(ws_len(r) == 0);
    assert(r.skip(0) =~= r);
    assert(r.skip(1)[0] == r[1]);
    assert(ws_len(r.skip(1)) == 0);
    assert(r.skip(1).skip(0) =~= r.skip(1));
}

/// Reading back one written task record gives the record, whatever
/// follows it.
#[verifier::rlimit(100)]
proof fn lemma_parse_task_ser(t: TaskView, rest: Seq<char>)
    requires
        storable(t),
    ensures
        parse_task(ser_task(t) + rest) == Some((t, rest)),
{
    let r6 = seq!['}'] + rest;
    let r5 = seq![','] + seg_tags(t) + r6;
    let r4 = seq![','] + seg_prio(t) + r5;
    let r3 = seq![','] + seg_due(t) + r4;
    let r2 = seq![','] + seg_done(t) + r3;
    let r1 = seq![','] + seg_text(t) + r2;
    let s = ser_task(t) + rest;
    assert(s =~= seq!['{'] + seg_id(t) + r1) by {
        reveal(ser_task);
    }
    assert(r1[1] == '"' && r2[1] == '"' && r3[1] == '"' && r4[1] == '"' && r5[1] == '"');
    assert(s[0] == '{');
    assert(s.skip(1) =~= seg_id(t) + r1);
    assert(ws_len(s.skip(1)) == 0) by {
        assert(s.skip(1)[0] == '"');
    }
    assert(s.skip(1).skip(0) =~= s.skip(1));

    let acc0 = empty_acc();
    let acc1 = FieldsAcc { id: Some(t.id), ..acc0 };
    let acc2 = FieldsAcc { text: Some(t.text), ..acc1 };
    let acc3 = FieldsAcc { done: Some(t.done), ..acc2 };
    let acc4 = FieldsAcc { due: Some(t.due), ..acc3 };
    let acc5 = FieldsAcc { priority: Some(t.priority), ..acc4 };
    let acc6 = FieldsAcc { tags: Some(t.tags), ..acc5 };

    lemma_field_id_ser(t, r1, acc0);
    lemma_fields_step(seg_id(t) + r1, acc0, acc1, r1);
    assert(r1.skip(1) =~= seg_text(t) + r2);

    lemma_field_text_ser(t, r2, acc1);
    lemma_fields_step(seg_text(t) + r2, acc1, acc2, r2);
    assert(r2.skip(1) =~= seg_done(t) + r3);

    lemma_field_done_ser(t, r3, acc2);
    lemma_fields_step(seg_done(t) + r3, acc2, acc3, r3);
    assert(r3.skip(1) =~= seg_due(t) + r4);

    lemma_field_due_ser(t, r4, acc3);
    lemma_fields_step(seg_due(t) + r4, acc3, acc4, r4);
    assert(r4.skip(1) =~= seg_prio(t) + r5);

    lemma_field_prio_ser(t, r5, acc4);
    lemma_fields_step(seg_prio(t) + r5, acc4, acc5, r5);
    assert(r5.skip(1) =~= seg_tags(t) + r6);

    lemma_field_tags_ser(t, r6, acc5);
    assert(parse_fields(seg_tags(t) + r6, acc5) == Some((acc6, rest))) by {
        assert(ws_len(r6) == 0);
        assert(r6.skip(0) =~= r6);
        assert(r6[0] == '}');
        assert(r6.skip(1) =~= rest);
    }
    assert(parse_fields(s.skip(1), acc0) == Some((acc6, rest)));
    assert(parse_task(s) == Some((t, rest)));
}

/// A written record opens with its brace.
proof fn lemma_ser_task_first(t: TaskView)
    ensures
        ser_task(t).len() > 0,
        ser_task(t)[0] == '{',
{
    reveal(ser_task);
}

/// Reading back the written tail of a document gives its records,
/// whatever follows the closing bracket.
proof fn lemma_parse_tasks_rest_ser(ts: Seq<TaskView>, rest: Seq<char>)
    requires
        storable_all(ts),
    ensures
        parse_tasks_rest(ser_tasks_rest(ts) + rest) == Some((ts, rest)),
    decreases ts.len(),
{
    let s = ser_tasks_rest(ts) + rest;
    if ts.len() == 0 {
        assert(s =~= seq![']'] + rest);
        assert(ws_len(s) == 0);
        assert(s.skip(0) =~= s);
        assert(s.skip(1) =~= rest);
        assert(ts =~= Seq::<TaskView>::empty());
    } else {
        let tail = ser_tasks_rest(ts.skip(1)) + rest;
        assert(s =~= seq![','] + ser_task(ts[0]) + tail);
        assert(s[0] == ',');
        assert(ws_len(s) == 0);
        assert(s.skip(0) =~= s);
        assert(s.skip(1) =~= ser_task(ts[0]) + tail);
        lemma_ser_task_first(ts[0]);
        assert((ser_task(ts[0]) + tail)[0] == '{');
        assert(ws_len(s.skip(1)) == 0);
        assert(s.skip(1).skip(0) =~= s.skip(1));
        assert(storable(ts[0]));
        lemma_parse_task_ser(ts[0], tail);
        assert forall|i: int| 0 <= i < ts.skip(1).len() implies storable(#[trigger] ts.skip(1)[i]) by {
            assert(ts.skip(1)[i] == ts[i + 1]);
        }
        lemma_parse_tasks_rest_ser(ts.skip(1), rest);
        assert(seq![ts[0]] + ts.skip(1) =~= ts);
    }
}

/// The round-trip law: a written collection reads back equal, record for
/// record and field for field.
pub proof fn lemma_store_roundtrip(ts: Seq<TaskView>)
    requires
        storable_all(ts),
    ensures
        parse_doc(ser_tasks(ts)) == Some(ts),
{
    let s = ser_tasks(ts);
    if ts.len() == 0 {
        assert(s =~= seq!['[', ']']);
        assert(ws_len(s) == 0);
        assert(s.skip(0) =~= s);
        assert(s[0] == '[');
        assert(ws_len(s.skip(1)) == 0);
        assert(s.skip(1).skip(0) =~= s.skip(1));
        assert(s.skip(1)[0] == ']');
        assert(s.skip(1).skip(1) =~= Seq::<char>::empty());
        assert(ws_len(Seq::<char>::empty()) == 0);
        assert(ts =~= Seq::<TaskView>::empty());
    } else {
        let tail = ser_tasks_rest(ts.skip(1));
        assert(s =~= seq!['['] + ser_task(ts[0]) + tail);
        assert(ws_len(s) == 0);
        assert(s.skip(0) =~= s);
        assert(s[0] == '[');
        assert(s.skip(1) =~= ser_task(ts[0]) + tail);
        lemma_ser_task_first(ts[0]);
        assert((ser_task(ts[0]) + tail)[0] == '{');
        assert(ws_len(s.skip(1)) == 0);
        assert(s.skip(1).skip(0) =~= s.skip(1));
        assert(storable(ts[0]));
        lemma_parse_task_ser(ts[0], tail);
        assert forall|i: int| 0 <= i < ts.skip(1).len() implies storable(#[trigger] ts.skip(1)[i]) by {
            assert(ts.skip(1)[i] == ts[i + 1]);
        }
        assert(tail =~= ser_tasks_rest(ts.skip(1)) + Seq::<char>::empty());
        lemma_parse_tasks_rest_ser(ts.skip(1), Seq::<char>::empty());
        assert(ws_len(Seq::<char>::empty()) == 0);
        assert(seq![ts[0]] + ts.skip(1) =~= ts);
    }
}

// ---------------------------------------------------------------------------
// The executable writer
// ---------------------------------------------------------------------------

/// Relies on char::from_u32: a scalar value below the surrogate range or
/// above it, up to the largest code point, converts and nothing else does.
pub assume_specification[ char::from_u32 ](i: u32) -> (r: Option<char>)
    ensures
        r is Some <==> (i < 0xD800 || (0xE000 <= i && i <= 0x10FFFF)),
        r matches Some(c) ==> c == i as char,
;

/// The character for a decimal digit value.
fn digit_char(d: u32) -> (c: char)
    requires
        d < 10,
    ensures
        c == dec_digit(d as int),
{
    char::from_u32(48 + d).unwrap()
}

/// The character for a hexadecimal digit value.
fn hex_char(d: u32) -> (c: char)
    requires
        d < 16,
    ensures
        c == hex_digit(d as int),
{
    if d < 10 {
        char::from_u32(48 + d).unwrap()
    } else {
        char::from_u32(87 + d).unwrap()
    }
}

/// Escaping distributes over concatenation.
proof fn lemma_esc_seq_append(a: Seq<char>, b: Seq<char>)
    ensures
        esc_seq(a + b) == esc_seq(a) + esc_seq(b),
    decreases a.len(),
{
    if a.len() == 0 {
        assert(a + b =~= b);
        assert(esc_seq(a) + esc_seq(b) =~= esc_seq(b));
    } else {
        assert((a + b)[0] == a[0]);
        assert((a + b).skip(1) =~= a.skip(1) + b);
        lemma_esc_seq_append(a.skip(1), b);
        assert(esc_seq(a + b) =~= esc_seq(a) + esc_seq(b));
    }
}

/// A text without quotes, backslashes or control characters is written
/// as itself.
proof fn lemma_esc_seq_plain(t: Seq<char>)
    requires
        forall|i: int|
            0 <= i < t.len() ==> (#[trigger] t[i]) != '"' && t[i] != '\\' && t[i] as u32 >= 32,
    ensures
        esc_seq(t) == t,
    decreases t.len(),
{
    if t.len() > 0 {
        assert(t[0] != '"' && t[0] != '\\' && t[0] as u32 >= 32);
        assert forall|i: int|
            0 <= i < t.skip(1).len() implies (#[trigger] t.skip(1)[i]) != '"' && t.skip(1)[i]
            != '\\' && t.skip(1)[i] as u32 >= 32 by {
            assert(t.skip(1)[i] == t[i + 1]);
        }
        lemma_esc_seq_plain(t.skip(1));
        assert(esc_seq(t) =~= t);
    }
}

/// Appends the escaped form of `t`.
fn push_escaped(out: &mut Vec<char>, t: &Vec<char>)
    ensures
        final (out)@ == old(out)@ + esc_seq(t@),
{
    let ghost base = old(out)@;
    let mut i: usize = 0;
    proof {
        assert(esc_seq(t@.take(0)) =~= Seq::<char>::empty());
        assert(out@ =~= base + esc_seq(t@.take(0)));
    }
    while i < t.len()
        invariant
            i <= t@.len(),
            out@ == base + esc_seq(t@.take(i as int)),
        decreases t@.len() - i,
    {
        let c = t[i];
        proof {
            assert(t@.take(i + 1) =~= t@.take(i as int) + seq![c]);
            lemma_esc_seq_append(t@.take(i as int), seq![c]);
            assert(esc_seq(seq![c]) =~= esc_char(c)) by {
                assert(seq![c].skip(1) =~= Seq::<char>::empty());
                assert(esc_seq(Seq::<char>::empty()) =~= Seq::<char>::empty());
            }
        }
        if c == '"' {
            out.push('\\');
            out.push('"');
        } else if c == '\\' {
            out.push('\\');
            out.push('\\');
        } else {
            let u = c as u32;
            if u < 32 {
                out.push('\\');
                out.push('u');
                out.push('0');
                out.push('0');
                out.push(hex_char(u / 16));
                out.push(hex_char(u % 16));
            } else {
                out.push(c);
            }
        }
        proof {
            assert(out@ =~= base + esc_seq(t@.take(i + 1)));
        }
        i += 1;
    }
    proof {
        assert(t@.take(t@.len() as int) =~= t@);
    }
}

/// Appends the written form of a text: escaped, between quotes.
fn push_string(out: &mut Vec<char>, s: &String)
    ensures
        final (out)@ == old(out)@ + ser_string(s@),
{
    let cs = crate::text::chars_of(s.as_str());
    out.push('"');
    push_escaped(out, &cs);
    out.push('"');
    proof {
        assert(out@ =~= old(out)@ + ser_string(s@));
    }
}

/// Appends the decimal text of a number.
fn push_nat(out: &mut Vec<char>, n: usize)
    ensures
        final (out)@ == old(out)@ + ser_nat(n as int),
    decreases n,
{
    if n < 10 {
        out.push(digit_char(n as u32));
        proof {
            assert(out@ =~= old(out)@ + ser_nat(n as int));
        }
    } else {
        push_nat(out, n / 10);
        out.push(digit_char((n % 10) as u32));
        proof {
            assert(out@ =~= old(out)@ + ser_nat(n as int));
        }
    }
}

/// Appends the quoted `YYYY-MM-DD` text of a date.
fn push_date(out: &mut Vec<char>, d: &Date)
    requires
        d.valid(),
    ensures
        final (out)@ == old(out)@ + ser_string(date_chars(*d)),
{
    out.push('"');
    out.push(digit_char(d.year / 1000));
    out.push(digit_char(d.year / 100 % 10));
    out.push(digit_char(d.year / 10 % 10));
    out.push(digit_char(d.year % 10));
    out.push('-');
    out.push(digit_char(d.month / 10));
    out.push(digit_char(d.month % 10));
    out.push('-');
    out.push(digit_char(d.day / 10));
    out.push(digit_char(d.day % 10));
    out.push('"');
    proof {
        assert forall|i: int|
            0 <= i < date_chars(*d).len() implies (#[trigger] date_chars(*d)[i]) != '"'
            && date_chars(*d)[i] != '\\' && date_chars(*d)[i] as u32 >= 32 by {
            assert(is_digit(date_chars(*d)[i]) || date_chars(*d)[i] == '-');
        }
        lemma_esc_seq_plain(date_chars(*d));
        assert(out@ =~= old(out)@ + ser_string(date_chars(*d)));
    }
}

/// Appends `true` or `false`.
fn push_bool(out: &mut Vec<char>, b: bool)
    ensures
        final (out)@ == old(out)@ + ser_bool(b),
{
    if b {
        out.push('t');
        out.push('r');
        out.push('u');
        out.push('e');
    } else {
        out.push('f');
        out.push('a');
        out.push('l');
        out.push('s');
        out.push('e');
    }
    proof {
        assert(out@ =~= old(out)@ + ser_bool(b));
    }
}

/// Appends a quoted word whose characters need no escaping.
fn push_plain_quoted(out: &mut Vec<char>, w: &Vec<char>)
    requires
        forall|i: int|
            0 <= i < w@.len() ==> (#[trigger] w@[i]) != '"' && w@[i] != '\\' && w@[i] as u32 >= 32,
    ensures
        final (out)@ == old(out)@ + ser_string(w@),
{
    out.push('"');
    let mut i: usize = 0;
    while i < w.len()
        invariant
            i <= w@.len(),
            out@ == old(out)@ + seq!['"'] + w@.take(i as int),
        decreases w@.len() - i,
    {
        out.push(w[i]);
        proof {
            assert(out@ =~= old(out)@ + seq!['"'] + w@.take(i + 1));
        }
        i += 1;
    }
    out.push('"');
    proof {
        assert(w@.take(w@.len() as int) =~= w@);
        lemma_esc_seq_plain(w@);
        assert(out@ =~= old(out)@ + ser_string(w@));
    }
}

/// Appends the written priority word.
fn push_prio(out: &mut Vec<char>, p: Priority)
    ensures
        final (out)@ == old(out)@ + ser_string(prio_chars(p)),
{
    let mut w: Vec<char> = Vec::new();
    match p {
        Priority::Low => {
            w.push('l');
            w.push('o');
            w.push('w');
        },
        Priority::Normal => {
            w.push('n');
            w.push('o');
            w.push('r');
            w.push('m');
            w.push('a');
            w.push('l');
        },
        Priority::High => {
            w.push('h');
            w.push('i');
            w.push('g');
            w.push('h');
        },
    }
    proof {
        assert(w@ =~= prio_chars(p));
    }
    push_plain_quoted(out, &w);
}

/// Appends the written tag array.
fn push_tags(out: &mut Vec<char>, tags: &Vec<String>)
    ensures
        final (out)@ == old(out)@ + ser_tags(tags.deep_view()),
{
    let ghost tgs = tags.deep_view();
    out.push('[');
    if tags.len() == 0 {
        out.push(']');
        proof {
            assert(out@ =~= old(out)@ + ser_tags(tgs));
        }
        return ;
    }
    proof {
        assert(tgs[0] == tags@[0]@);
    }
    push_string(out, &tags[0]);
    let mut i: usize = 1;
    while i < tags.len()
        invariant
            tgs == tags.deep_view(),
            tgs.len() == tags@.len(),
            1 <= i <= tgs.len(),
            out@ == old(out)@ + seq!['['] + ser_string(tgs[0]) + mid_tags(tgs, 1, i as int),
        decreases tags@.len() - i,
    {
        proof {
            assert(tgs[i as int] == tags@[i as int]@);
        }
        out.push(',');
        push_string(out, &tags[i]);
        proof {
            lemma_mid_tags_snoc(tgs, 1, i as int);
            assert(out@ =~= old(out)@ + seq!['['] + ser_string(tgs[0]) + mid_tags(tgs, 1, i + 1));
        }
        i += 1;
    }
    out.push(']');
    proof {
        lemma_mid_tags_rest(tgs, 1);
        assert(out@ =~= old(out)@ + ser_tags(tgs));
    }
}

/// The middle of a written tag array: the comma-led tags from `from`
/// (exclusive of the first tag) up to `to`.
spec fn mid_tags(tags: Seq<Seq<char>>, from: int, to: int) -> Seq<char>
    decreases to - from,
{
    if from >= to {
        Seq::empty()
    } else {
        seq![','] + ser_string(tags[from]) + mid_tags(tags, from + 1, to)
    }
}

proof fn lemma_mid_tags_snoc(tags: Seq<Seq<char>>, from: int, to: int)
    requires
        0 <= from <= to < tags.len(),
    ensures
        mid_tags(tags, from, to + 1) == mid_tags(tags, from, to) + (seq![','] + ser_string(
            tags[to],
        )),
    decreases to - from,
{
    if from >= to {
        assert(mid_tags(tags, from, to) =~= Seq::<char>::empty());
        assert(mid_tags(tags, from + 1, from + 1) =~= Seq::<char>::empty());
        assert(mid_tags(tags, from, from + 1) =~= seq![','] + ser_string(tags[from])
            + Seq::<char>::empty());
        assert(mid_tags(tags, from, to + 1) =~= mid_tags(tags, from, to) + (seq![','] + ser_string(
            tags[to],
        )));
    } else {
        lemma_mid_tags_snoc(tags, from + 1, to);
        assert(mid_tags(tags, from, to + 1) =~= mid_tags(tags, from, to) + (seq![','] + ser_string(
            tags[to],
        )));
    }
}

/// The middle of the array from `from` to its end, with the bracket,
/// is exactly `ser_tags_rest` of the remaining tags.
proof fn lemma_mid_tags_rest(tags: Seq<Seq<char>>, from: int)
    requires
        0 <= from <= tags.len(),
    ensures
        mid_tags(tags, from, tags.len() as int) + seq![']'] == ser_tags_rest(tags.skip(from)),
    decreases tags.len() - from,
{
    if from == tags.len() {
        assert(tags.skip(from).len() == 0);
        assert(mid_tags(tags, from, tags.len() as int) + seq![']'] =~= ser_tags_rest(
            tags.skip(from),
        ));
    } else {
        lemma_mid_tags_rest(tags, from + 1);
        assert(tags.skip(from)[0] == tags[from]);
        assert(tags.skip(from).skip(1) =~= tags.skip(from + 1));
        assert(mid_tags(tags, from, tags.len() as int) + seq![']'] =~= seq![','] + ser_string(
            tags[from],
        ) + (mid_tags(tags, from + 1, tags.len() as int) + seq![']']));
        assert(mid_tags(tags, from, tags.len() as int) + seq![']'] =~= ser_tags_rest(
            tags.skip(from),
        ));
    }
}

/// Every field of a key word is an unescaped printable character.
proof fn lemma_keys_plain()
    ensures
        esc_seq(key_id()) == key_id(),
        esc_seq(key_text()) == key_text(),
        esc_seq(key_done()) == key_done(),
        esc_seq(key_due()) == key_due(),
        esc_seq(key_priority()) == key_priority(),
        esc_seq(key_tags()) == key_tags(),
{
    lemma_esc_seq_plain(key_id());
    lemma_esc_seq_plain(key_text());
    lemma_esc_seq_plain(key_done());
    lemma_esc_seq_plain(key_due());
    lemma_esc_seq_plain(key_priority());
    lemma_esc_seq_plain(key_tags());
}

/// Appends `"key":` for a key word needing no escapes.
fn push_key(out: &mut Vec<char>, w: &Vec<char>)
    requires
        forall|i: int|
            0 <= i < w@.len() ==> (#[trigger] w@[i]) != '"' && w@[i] != '\\' && w@[i] as u32 >= 32,
    ensures
        final (out)@ == old(out)@ + ser_string(w@) + seq![':'],
{
    push_plain_quoted(out, w);
    out.push(':');
    proof {
        assert(out@ =~= old(out)@ + ser_string(w@) + seq![':']);
    }
}

/// The opening half of a written record: brace, id, text and done.
spec fn ser_task_front(t: TaskView) -> Seq<char> {
    seq!['{'] + seg_id(t) + seq![','] + seg_text(t) + seq![','] + seg_done(t)
}

/// Appends the brace and the id, text and done fields of a record.
#[verifier::rlimit(60)]
fn push_task_front(out: &mut Vec<char>, t: &Task)
    ensures
        final (out)@ == old(out)@ + ser_task_front(t@),
{
    proof {
        lemma_keys_plain();
    }
    let ghost base = old(out)@;
    out.push('{');

    let mut kid: Vec<char> = Vec::new();
    kid.push('i');
    kid.push('d');
    proof {
        assert(kid@ =~= key_id());
    }
    push_key(out, &kid);
    push_nat(out, t.id);
    proof {
        assert(out@ =~= base + seq!['{'] + seg_id(t@));
    }

    out.push(',');
    let mut ktext: Vec<char> = Vec::new();
    ktext.push('t');
    ktext.push('e');
    ktext.push('x');
    ktext.push('t');
    proof {
        assert(ktext@ =~= key_text());
    }
    push_key(out, &ktext);
    push_string(out, &t.text);
    proof {
        assert(out@ =~= base + seq!['{'] + seg_id(t@) + seq![','] + seg_text(t@));
    }

    out.push(',');
    let mut kdone: Vec<char> = Vec::new();
    kdone.push('d');
    kdone.push('o');
    kdone.push('n');
    kdone.push('e');
    proof {
        assert(kdone@ =~= key_done());
    }
    push_key(out, &kdone);
    push_bool(out, t.done);
    proof {
        assert(out@ =~= base + ser_task_front(t@));
    }
}

/// Appends one written task record.
#[verifier::rlimit(60)]
fn push_task(out: &mut Vec<char>, t: &Task)
    requires
        t@.due matches Some(d) ==> d.valid(),
    ensures
        final (out)@ == old(out)@ + ser_task(t@),
{
    proof {
        lemma_keys_plain();
    }
    let ghost base = old(out)@;
    push_task_front(out, t);

    out.push(',');
    let mut kdue: Vec<char> = Vec::new();
    kdue.push('d');
    kdue.push('u');
    kdue.push('e');
    proof {
        assert(kdue@ =~= key_due());
    }
    push_key(out, &kdue);
    match &t.due {
        Some(d) => push_date(out, d),
        None => {
            out.push('n');
            out.push('u');
            out.push('l');
            out.push('l');
        },
    }
    proof {
        assert(out@ =~= base + ser_task_front(t@) + seq![','] + seg_due(t@));
    }

    out.push(',');
    let mut kprio: Vec<char> = Vec::new();
    kprio.push('p');
    kprio.push('r');
    kprio.push('i');
    kprio.push('o');
    kprio.push('r');
    kprio.push('i');
    kprio.push('t');
    kprio.push('y');
    proof {
        assert(kprio@ =~= key_priority());
    }
    push_key(out, &kprio);
    push_prio(out, t.priority);
    proof {
        assert(out@ =~= base + ser_task_front(t@) + seq![','] + seg_due(t@) + seq![','] + seg_prio(
            t@,
        ));
    }

    out.push(',');
    let mut ktags: Vec<char> = Vec::new();
    ktags.push('t');
    ktags.push('a');
    ktags.push('g');
    ktags.push('s');
    proof {
        assert(ktags@ =~= key_tags());
    }
    push_key(out, &ktags);
    push_tags(out, &t.tags);
    out.push('}');
    proof {
        reveal(ser_task);
        assert(out@ =~= base + ser_task(t@));
    }
}

/// Appends the written records from `i` on, each after a comma, then the
/// closing bracket.
fn push_tasks_from(out: &mut Vec<char>, tasks: &Vec<Task>, i: usize)
    requires
        1 <= i <= tasks@.len(),
        forall|k: int|
            0 <= k < tasks.deep_view().len() ==> ((#[trigger] tasks.deep_view()[k]).due matches
            Some(d) ==> d.valid()),
    ensures
        final (out)@ == old(out)@ + ser_tasks_rest(tasks.deep_view().skip(i as int)),
    decreases tasks@.len() - i,
{
    let ghost ts = tasks.deep_view();
    if i == tasks.len() {
        out.push(']');
        proof {
            assert(ts.skip(i as int).len() == 0);
            assert(out@ =~= old(out)@ + ser_tasks_rest(ts.skip(i as int)));
        }
    } else {
        out.push(',');
        proof {
            assert(ts[i as int] == tasks@[i as int]@);
        }
        push_task(out, &tasks[i]);
        push_tasks_from(out, tasks, i + 1);
        proof {
            assert(ts.skip(i as int)[0] == ts[i as int]);
            assert(ts.skip(i as int).skip(1) =~= ts.skip(i + 1));
            assert(out@ =~= old(out)@ + ser_tasks_rest(ts.skip(i as int)));
        }
    }
}

/// The whole collection as its stored text, record for record.
pub fn save_tasks(tasks: &Vec<Task>) -> (r: String)
    requires
        forall|k: int|
            0 <= k < tasks.deep_view().len() ==> ((#[trigger] tasks.deep_view()[k]).due matches
            Some(d) ==> d.valid()),
    ensures
        r@ == ser_tasks(tasks.deep_view()),
{
    let ghost ts = tasks.deep_view();
    let mut out: Vec<char> = Vec::new();
    out.push('[');
    if tasks.len() == 0 {
        out.push(']');
        proof {
            assert(out@ =~= ser_tasks(ts));
        }
    } else {
        proof {
            assert(ts[0] == tasks@[0]@);
        }
        push_task(&mut out, &tasks[0]);
        push_tasks_from(&mut out, tasks, 1);
        proof {
            assert(out@ =~= ser_tasks(ts));
        }
    }
    crate::text::string_from_chars(&out)
}

// ---------------------------------------------------------------------------
// The executable reader
// ---------------------------------------------------------------------------

/// The slice from position `k` on.
fn tail<'a>(s: &'a [char], k: usize) -> (r: &'a [char])
    requires
        k <= s@.len(),
    ensures
        r@ == s@.skip(k as int),
{
    let r = vstd::slice::slice_subrange(s, k, s.len());
    proof {
        assert(r@ =~= s@.skip(k as int));
    }
    r
}

/// Steps over leading whitespace.
fn skip_ws_x<'a>(s: &'a [char]) -> (r: &'a [char])
    ensures
        r@ == s@.skip(ws_len(s@)),
{
    let n = s.len();
    let mut i: usize = 0;
    while i < n && (s[i] == ' ' || s[i] == '\n' || s[i] == '\t' || s[i] == '\r')
        invariant
            n == s@.len(),
            i <= n,
            forall|k: int| 0 <= k < i ==> is_ws(#[trigger] s@[k]),
        decreases n - i,
    {
        i += 1;
    }
    proof {
        lemma_ws_len_at(s@, i as int);
    }
    tail(s, i)
}

/// `digits_len` counts exactly up to the first non-digit.
proof fn lemma_digits_len_at(s: Seq<char>, i: int)
    requires
        0 <= i <= s.len(),
        forall|k: int| 0 <= k < i ==> is_digit(#[trigger] s[k]),
        i == s.len() || !is_digit(s[i]),
    ensures
        digits_len(s) == i,
    decreases i,
{
    if i == 0 {
    } else {
        assert(is_digit(s[0]));
        assert forall|k: int| 0 <= k < i - 1 implies is_digit(#[trigger] s.skip(1)[k]) by {
            assert(s.skip(1)[k] == s[k + 1]);
        }
        if i - 1 < s.skip(1).len() {
            assert(s.skip(1)[i - 1] == s[i]);
        }
        lemma_digits_len_at(s.skip(1), i - 1);
    }
}

/// A number token: its value if it fits the machine word, a flag when it
/// does not, and what follows the digits.
fn p_nat<'a>(s: &'a [char]) -> (r: Option<(usize, bool, &'a [char])>)
    ensures
        parse_nat(s@) is None ==> r is None,
        parse_nat(s@) matches Some((v, rest)) ==> (r matches Some((val, over, rt)) && rt@ == rest
            && over == (v > usize::MAX as int) && (!over ==> val as int == v)),
{
    let n = s.len();
    let mut i: usize = 0;
    let mut acc: usize = 0;
    let mut over = false;
    while i < n && s[i] >= '0' && s[i] <= '9'
        invariant
            n == s@.len(),
            i <= n,
            forall|k: int| 0 <= k < i ==> is_digit(#[trigger] s@[k]),
            over == (prefix_val(s@.take(i as int)) > usize::MAX as int),
            !over ==> acc as int == prefix_val(s@.take(i as int)),
        decreases n - i,
    {
        let ghost p = prefix_val(s@.take(i as int));
        let d = (s[i] as u32 - 48) as usize;
        proof {
            assert(s@.take(i + 1).drop_last() =~= s@.take(i as int));
            assert(s@.take(i + 1).last() == s@[i as int]);
            assert(digit_val(s@[i as int]) == d as int);
            assert(prefix_val(s@.take(i + 1)) == p * 10 + d);
        }
        if over {
            proof {
                assert(p * 10 + d > usize::MAX as int) by (nonlinear_arith)
                    requires
                        p > usize::MAX as int,
                        d >= 0,
                ;
            }
        } else {
            if acc <= (usize::MAX - d) / 10 {
                proof {
                    assert(acc as int * 10 + d <= usize::MAX as int) by (nonlinear_arith)
                        requires
                            0 <= acc as int <= (usize::MAX as int - d) / 10,
                            0 <= d as int <= 9,
                    ;
                }
                acc = acc * 10 + d;
            } else {
                over = true;
                proof {
                    assert(acc as int * 10 + d > usize::MAX as int) by (nonlinear_arith)
                        requires
                            acc as int > (usize::MAX as int - d) / 10,
                            0 <= d as int <= 9,
                            acc as int >= 0,
                    ;
                }
            }
        }
        i += 1;
    }
    proof {
        lemma_digits_len_at(s@, i as int);
    }
    if i == 0 {
        None
    } else {
        Some((acc, over, tail(s, i)))
    }
}

/// The value of a hexadecimal digit character, if it is one.
fn hexv(c: char) -> (r: Option<u32>)
    ensures
        r is Some <==> is_hex(c),
        r matches Some(v) ==> v as int == hex_val(c) && v < 16,
{
    let u = c as u32;
    if 48 <= u && u <= 57 {
        Some(u - 48)
    } else if 97 <= u && u <= 102 {
        Some(u - 87)
    } else if 65 <= u && u <= 70 {
        Some(u - 55)
    } else {
        None
    }
}

/// The character a two-character escape denotes, if any.
fn unesc_x(e: char) -> (r: Option<char>)
    ensures
        r == unesc_two(e),
{
    if e == '"' {
        Some('"')
    } else if e == '\\' {
        Some('\\')
    } else if e == '/' {
        Some('/')
    } else if e == 'n' {
        Some('\n')
    } else if e == 't' {
        Some('\t')
    } else if e == 'r' {
        Some('\r')
    } else if e == 'b' {
        Some('\u{0008}')
    } else if e == 'f' {
        Some('\u{000C}')
    } else {
        None
    }
}

/// The inside of a quoted string up to and including its closing quote.
fn p_str_body<'a>(s: &'a [char]) -> (r: Option<(Vec<char>, &'a [char])>)
    ensures
        parse_str_body(s@) is None ==> r is None,
        parse_str_body(s@) matches Some((t, rest)) ==> (r matches Some((v, rt)) && v@ == t && rt@
            == rest),
    decreases s@.len(),
{
    if s.len() == 0 {
        return None;
    }
    let c0 = s[0];
    if c0 == '"' {
        return Some((Vec::new(), tail(s, 1)));
    }
    if c0 == '\\' {
        if s.len() < 2 {
            return None;
        }
        let e = s[1];
        if e == 'u' {
            if s.len() < 6 {
                return None;
            }
            let h2 = hexv(s[2]);
            let h3 = hexv(s[3]);
            let h4 = hexv(s[4]);
            let h5 = hexv(s[5]);
            if h2.is_none() || h3.is_none() || h4.is_none() || h5.is_none() {
                return None;
            }
            let code = ((h2.unwrap() * 16 + h3.unwrap()) * 16 + h4.unwrap()) * 16 + h5.unwrap();
            if 0xD800 <= code && code < 0xE000 {
                return None;
            }
            match p_str_body(tail(s, 6)) {
                Some((mut v, rt)) => {
                    let c = char::from_u32(code).unwrap();
                    v.insert(0, c);
                    proof {
                        let spec_t = parse_str_body(s@.skip(6)).unwrap().0;
                        assert(v@ =~= seq![c] + spec_t);
                    }
                    Some((v, rt))
                },
                None => None,
            }
        } else {
            match unesc_x(e) {
                Some(c) => match p_str_body(tail(s, 2)) {
                    Some((mut v, rt)) => {
                        v.insert(0, c);
                        proof {
                            let spec_t = parse_str_body(s@.skip(2)).unwrap().0;
                            assert(v@ =~= seq![c] + spec_t);
                        }
                        Some((v, rt))
                    },
                    None => None,
                },
                None => None,
            }
        }
    } else {
        match p_str_body(tail(s, 1)) {
            Some((mut v, rt)) => {
                v.insert(0, c0);
                proof {
                    let spec_t = parse_str_body(s@.skip(1)).unwrap().0;
                    assert(v@ =~= seq![c0] + spec_t);
                }
                Some((v, rt))
            },
            None => None,
        }
    }
}

/// A quoted string read off the front of `s`.
fn p_string<'a>(s: &'a [char]) -> (r: Option<(Vec<char>, &'a [char])>)
    ensures
        parse_string(s@) is None ==> r is None,
        parse_string(s@) matches Some((t, rest)) ==> (r matches Some((v, rt)) && v@ == t && rt@
            == rest),
{
    if s.len() == 0 {
        return None;
    }
    if s[0] != '"' {
        return None;
    }
    p_str_body(tail(s, 1))
}

/// How many days the month has, leap years included.
fn days_in(y: u32, m: u32) -> (r: u32)
    ensures
        r as int == days_in_month(y as int, m as int),
{
    if m == 2 {
        if (y % 4 == 0 && y % 100 != 0) || y % 400 == 0 {
            29
        } else {
            28
        }
    } else if m == 4 || m == 6 || m == 9 || m == 11 {
        30
    } else {
        31
    }
}

/// Whether the fields name a real calendar date.
fn date_valid(d: &Date) -> (r: bool)
    ensures
        r == d.valid(),
{
    d.year <= 9999 && 1 <= d.month && d.month <= 12 && 1 <= d.day && d.day <= days_in(
        d.year,
        d.month,
    )
}

/// The date a ten-character text denotes, if it is a real one.
fn p_date(v: &Vec<char>) -> (r: Option<Date>)
    ensures
        r == date_of_chars(v@),
{
    if v.len() != 10 {
        return None;
    }
    let mut ds: Vec<u32> = Vec::new();
    let mut i: usize = 0;
    while i < 10
        invariant
            v@.len() == 10,
            i <= 10,
            ds@.len() == i,
            forall|k: int|
                0 <= k < i && k != 4 && k != 7 ==> (is_digit(#[trigger] v@[k]) && ds@[k] as int
                    == digit_val(v@[k]) && ds@[k] < 10),
            i > 4 ==> v@[4] == '-',
            i > 7 ==> v@[7] == '-',
        decreases 10 - i,
    {
        let c = v[i];
        if i == 4 || i == 7 {
            if c != '-' {
                proof {
                    assert(i == 4 || i == 7);
                }
                return None;
            }
            ds.push(0);
        } else {
            if !(c >= '0' && c <= '9') {
                proof {
                    assert(i == 0 || i == 1 || i == 2 || i == 3 || i == 5 || i == 6 || i == 8
                        || i == 9);
                }
                return None;
            }
            ds.push(c as u32 - 48);
        }
        i += 1;
    }
    proof {
        assert(is_digit(v@[0]) && ds@[0] as int == digit_val(v@[0]) && ds@[0] < 10);
        assert(is_digit(v@[1]) && ds@[1] as int == digit_val(v@[1]) && ds@[1] < 10);
        assert(is_digit(v@[2]) && ds@[2] as int == digit_val(v@[2]) && ds@[2] < 10);
        assert(is_digit(v@[3]) && ds@[3] as int == digit_val(v@[3]) && ds@[3] < 10);
        assert(is_digit(v@[5]) && ds@[5] as int == digit_val(v@[5]) && ds@[5] < 10);
        assert(is_digit(v@[6]) && ds@[6] as int == digit_val(v@[6]) && ds@[6] < 10);
        assert(is_digit(v@[8]) && ds@[8] as int == digit_val(v@[8]) && ds@[8] < 10);
        assert(is_digit(v@[9]) && ds@[9] as int == digit_val(v@[9]) && ds@[9] < 10);
    }
    let y = ((ds[0] * 10 + ds[1]) * 10 + ds[2]) * 10 + ds[3];
    let m = ds[5] * 10 + ds[6];
    let dd = ds[8] * 10 + ds[9];
    let date = Date { year: y, month: m, day: dd };
    if date_valid(&date) {
        Some(date)
    } else {
        None
    }
}

/// The priority a word denotes, if it is one of the three.
fn p_prio(v: &Vec<char>) -> (r: Option<Priority>)
    ensures
        r == prio_of_chars(v@),
{
    if v.len() == 3 && v[0] == 'l' && v[1] == 'o' && v[2] == 'w' {
        proof {
            assert(v@ =~= prio_chars(Priority::Low));
        }
        Some(Priority::Low)
    } else if v.len() == 6 && v[0] == 'n' && v[1] == 'o' && v[2] == 'r' && v[3] == 'm' && v[4]
        == 'a' && v[5] == 'l' {
        proof {
            assert(v@ =~= prio_chars(Priority::Normal));
        }
        Some(Priority::Normal)
    } else if v.len() == 4 && v[0] == 'h' && v[1] == 'i' && v[2] == 'g' && v[3] == 'h' {
        proof {
            assert(v@ =~= prio_chars(Priority::High));
        }
        Some(Priority::High)
    } else {
        proof {
            assert(v@ != prio_chars(Priority::Low)) by {
                if v@ == prio_chars(Priority::Low) {
                    assert(v@.len() == 3 && v@[0] == 'l' && v@[1] == 'o' && v@[2] == 'w');
                }
            }
            assert(v@ != prio_chars(Priority::Normal)) by {
                if v@ == prio_chars(Priority::Normal) {
                    assert(v@.len() == 6 && v@[0] == 'n' && v@[1] == 'o' && v@[2] == 'r' && v@[3]
                        == 'm' && v@[4] == 'a' && v@[5] == 'l');
                }
            }
            assert(v@ != prio_chars(Priority::High)) by {
                if v@ == prio_chars(Priority::High) {
                    assert(v@.len() == 4 && v@[0] == 'h' && v@[1] == 'i' && v@[2] == 'g' && v@[3]
                        == 'h');
                }
            }
        }
        None
    }
}

/// A boolean token read off the front of `s`.
fn p_bool<'a>(s: &'a [char]) -> (r: Option<(bool, &'a [char])>)
    ensures
        r is Some <==> parse_bool(s@) is Some,
        parse_bool(s@) matches Some((b, rest)) ==> (r matches Some((rb, rt)) && rb == b && rt@
            == rest),
{
    if s.len() >= 4 && s[0] == 't' && s[1] == 'r' && s[2] == 'u' && s[3] == 'e' {
        proof {
            assert(s@.take(4) =~= lit_true());
        }
        Some((true, tail(s, 4)))
    } else if s.len() >= 5 && s[0] == 'f' && s[1] == 'a' && s[2] == 'l' && s[3] == 's' && s[4]
        == 'e' {
        proof {
            assert(!match_lit(s@, lit_true())) by {
                if match_lit(s@, lit_true()) {
                    assert(s@.take(4)[0] == s@[0]);
                }
            }
            assert(s@.take(5) =~= lit_false());
        }
        Some((false, tail(s, 5)))
    } else {
        proof {
            assert(!match_lit(s@, lit_true())) by {
                if match_lit(s@, lit_true()) {
                    assert(s@.take(4)[0] == s@[0]);
                    assert(s@.take(4)[1] == s@[1]);
                    assert(s@.take(4)[2] == s@[2]);
                    assert(s@.take(4)[3] == s@[3]);
                }
            }
            assert(!match_lit(s@, lit_false())) by {
                if match_lit(s@, lit_false()) {
                    assert(s@.take(5)[0] == s@[0]);
                    assert(s@.take(5)[1] == s@[1]);
                    assert(s@.take(5)[2] == s@[2]);
                    assert(s@.take(5)[3] == s@[3]);
                    assert(s@.take(5)[4] == s@[4]);
                }
            }
        }
        None
    }
}

/// Whether `s` opens with the word `null`.
fn p_null(s: &[char]) -> (r: bool)
    ensures
        r == match_lit(s@, lit_null()),
{
    if s.len() >= 4 && s[0] == 'n' && s[1] == 'u' && s[2] == 'l' && s[3] == 'l' {
        proof {
            assert(s@.take(4) =~= lit_null());
        }
        true
    } else {
        proof {
            assert(!match_lit(s@, lit_null())) by {
                if match_lit(s@, lit_null()) {
                    assert(s@.take(4)[0] == s@[0]);
                    assert(s@.take(4)[1] == s@[1]);
                    assert(s@.take(4)[2] == s@[2]);
                    assert(s@.take(4)[3] == s@[3]);
                }
            }
        }
        false
    }
}

/// The tail of a tag array: comma-led further tags up to and including
/// the closing bracket.
fn p_tags_rest<'a>(s: &'a [char]) -> (r: Option<(Vec<String>, &'a [char])>)
    ensures
        parse_tags_rest(s@) is None ==> r is None,
        parse_tags_rest(s@) matches Some((ts, rest)) ==> (r matches Some((v, rt)) && v.deep_view()
            == ts && rt@ == rest),
    decreases s@.len(),
{
    proof {
        lemma_ws_len_bound(s@);
    }
    let s1 = skip_ws_x(s);
    if s1.len() == 0 {
        return None;
    }
    if s1[0] == ']' {
        let out: Vec<String> = Vec::new();
        proof {
            assert(out.deep_view() =~= Seq::<Seq<char>>::empty());
        }
        return Some((out, tail(s1, 1)));
    }
    if s1[0] != ',' {
        return None;
    }
    proof {
        lemma_ws_len_bound(s1@.skip(1));
    }
    let s2 = skip_ws_x(tail(s1, 1));
    match p_string(s2) {
        Some((tv, rest)) => {
            proof {
                lemma_parse_string_consumes(s2@);
            }
            match p_tags_rest(rest) {
                Some((mut v, rt)) => {
                    let t = crate::text::string_from_chars(&tv);
                    v.insert(0, t);
                    proof {
                        let spec_ts = parse_tags_rest(rest@).unwrap().0;
                        assert(v.deep_view() =~= seq![tv@] + spec_ts);
                    }
                    Some((v, rt))
                },
                None => None,
            }
        },
        None => None,
    }
}

/// A whole tag array read off the front of `s`.
fn p_tags<'a>(s: &'a [char]) -> (r: Option<(Vec<String>, &'a [char])>)
    ensures
        parse_tags(s@) is None ==> r is None,
        parse_tags(s@) matches Some((ts, rest)) ==> (r matches Some((v, rt)) && v.deep_view() == ts
            && rt@ == rest),
{
    if s.len() == 0 || s[0] != '[' {
        return None;
    }
    proof {
        lemma_ws_len_bound(s@.skip(1));
    }
    let s1 = skip_ws_x(tail(s, 1));
    if s1.len() == 0 {
        return None;
    }
    if s1[0] == ']' {
        let out: Vec<String> = Vec::new();
        proof {
            assert(out.deep_view() =~= Seq::<Seq<char>>::empty());
        }
        return Some((out, tail(s1, 1)));
    }
    match p_string(s1) {
        Some((tv, rest)) => {
            match p_tags_rest(rest) {
                Some((mut v, rt)) => {
                    let t = crate::text::string_from_chars(&tv);
                    v.insert(0, t);
                    proof {
                        let spec_ts = parse_tags_rest(rest@).unwrap().0;
                        assert(v.deep_view() =~= seq![tv@] + spec_ts);
                    }
                    Some((v, rt))
                },
                None => None,
            }
        },
        None => None,
    }
}

/// The fields collected so far while reading one record.
struct TaskAcc {
    id: Option<usize>,
    text: Option<String>,
    done: Option<bool>,
    due: Option<Option<Date>>,
    priority: Option<Priority>,
    tags: Option<Vec<String>>,
}

spec fn acc_view(a: &TaskAcc) -> FieldsAcc {
    FieldsAcc {
        id: match a.id {
            Some(v) => Some(v as int),
            None => None,
        },
        text: match a.text {
            Some(ref t) => Some(t@),
            None => None,
        },
        done: a.done,
        due: a.due,
        priority: a.priority,
        tags: match a.tags {
            Some(ref v) => Some(v.deep_view()),
            None => None,
        },
    }
}

fn is_key_id(k: &Vec<char>) -> (r: bool)
    ensures
        r == (k@ == key_id()),
{
    if k.len() == 2 && k[0] == 'i' && k[1] == 'd' {
        proof {
            assert(k@ =~= key_id());
        }
        true
    } else {
        proof {
            assert(k@ != key_id()) by {
                if k@ == key_id() {
                    assert(k@.len() == 2 && k@[0] == 'i' && k@[1] == 'd');
                }
            }
        }
        false
    }
}

fn is_key_text(k: &Vec<char>) -> (r: bool)
    ensures
        r == (k@ == key_text()),
{
    if k.len() == 4 && k[0] == 't' && k[1] == 'e' && k[2] == 'x' && k[3] == 't' {
        proof {
            assert(k@ =~= key_text());
        }
        true
    } else {
        proof {
            assert(k@ != key_text()) by {
                if k@ == key_text() {
                    assert(k@.len() == 4 && k@[0] == 't' && k@[1] == 'e' && k@[2] == 'x' && k@[3]
                        == 't');
                }
            }
        }
        false
    }
}

fn is_key_done(k: &Vec<char>) -> (r: bool)
    ensures
        r == (k@ == key_done()),
{
    if k.len() == 4 && k[0] == 'd' && k[1] == 'o' && k[2] == 'n' && k[3] == 'e' {
        proof {
            assert(k@ =~= key_done());
        }
        true
    } else {
        proof {
            assert(k@ != key_done()) by {
                if k@ == key_done() {
                    assert(k@.len() == 4 && k@[0] == 'd' && k@[1] == 'o' && k@[2] == 'n' && k@[3]
                        == 'e');
                }
            }
        }
        false
    }
}

fn is_key_due(k: &Vec<char>) -> (r: bool)
    ensures
        r == (k@ == key_due()),
{
    if k.len() == 3 && k[0] == 'd' && k[1] == 'u' && k[2] == 'e' {
        proof {
            assert(k@ =~= key_due());
        }
        true
    } else {
        proof {
            assert(k@ != key_due()) by {
                if k@ == key_due() {
                    assert(k@.len() == 3 && k@[0] == 'd' && k@[1] == 'u' && k@[2] == 'e');
                }
            }
        }
        false
    }
}

fn is_key_priority(k: &Vec<char>) -> (r: bool)
    ensures
        r == (k@ == key_priority()),
{
    if k.len() == 8 && k[0] == 'p' && k[1] == 'r' && k[2] == 'i' && k[3] == 'o' && k[4] == 'r'
        && k[5] == 'i' && k[6] == 't' && k[7] == 'y' {
        proof {
            assert(k@ =~= key_priority());
        }
        true
    } else {
        proof {
            assert(k@ != key_priority()) by {
                if k@ == key_priority() {
                    assert(k@.len() == 8 && k@[0] == 'p' && k@[1] == 'r' && k@[2] == 'i' && k@[3]
                        == 'o' && k@[4] == 'r' && k@[5] == 'i' && k@[6] == 't' && k@[7] == 'y');
                }
            }
        }
        false
    }
}

fn is_key_tags(k: &Vec<char>) -> (r: bool)
    ensures
        r == (k@ == key_tags()),
{
    if k.len() == 4 && k[0] == 't' && k[1] == 'a' && k[2] == 'g' && k[3] == 's' {
        proof {
            assert(k@ =~= key_tags());
        }
        true
    } else {
        proof {
            assert(k@ != key_tags()) by {
                if k@ == key_tags() {
                    assert(k@.len() == 4 && k@[0] == 't' && k@[1] == 'a' && k@[2] == 'g' && k@[3]
                        == 's');
                }
            }
        }
        false
    }
}

/// One `"key": value` pair read off the front of `s` into the accumulator.
#[verifier::rlimit(100)]
fn p_field<'a>(s: &'a [char], acc: TaskAcc) -> (r: Option<(TaskAcc, &'a [char])>)
    ensures
        parse_field(s@, acc_view(&acc)) is None ==> r is None,
        parse_field(s@, acc_view(&acc)) matches Some((a2, rest)) ==> (r matches Some((racc, rt))
            && acc_view(&racc) == a2 && rt@ == rest),
{
    proof {
        reveal(parse_field);
    }
    let key = match p_string(s) {
        Some((k, s1)) => (k, s1),
        None => {
            return None;
        },
    };
    let (k, s1) = key;
    proof {
        lemma_ws_len_bound(s1@);
    }
    let s2 = skip_ws_x(s1);
    if s2.len() == 0 {
        return None;
    }
    if s2[0] != ':' {
        return None;
    }
    proof {
        lemma_ws_len_bound(s2@.skip(1));
    }
    let s3 = skip_ws_x(tail(s2, 1));
    if is_key_id(&k) {
        if acc.id.is_some() {
            return None;
        }
        match p_nat(s3) {
            Some((val, over, rt)) => {
                if over {
                    None
                } else {
                    Some((TaskAcc { id: Some(val), ..acc }, rt))
                }
            },
            None => None,
        }
    } else if is_key_text(&k) {
        if acc.text.is_some() {
            return None;
        }
        match p_string(s3) {
            Some((tv, rt)) => {
                let txt = crate::text::string_from_chars(&tv);
                Some((TaskAcc { text: Some(txt), ..acc }, rt))
            },
            None => None,
        }
    } else if is_key_done(&k) {
        if acc.done.is_some() {
            return None;
        }
        match p_bool(s3) {
            Some((b, rt)) => Some((TaskAcc { done: Some(b), ..acc }, rt)),
            None => None,
        }
    } else if is_key_due(&k) {
        if acc.due.is_some() {
            return None;
        }
        if p_null(s3) {
            Some((TaskAcc { due: Some(None), ..acc }, tail(s3, 4)))
        } else {
            match p_string(s3) {
                Some((tv, rt)) => match p_date(&tv) {
                    Some(d) => Some((TaskAcc { due: Some(Some(d)), ..acc }, rt)),
                    None => None,
                },
                None => None,
            }
        }
    } else if is_key_priority(&k) {
        if acc.priority.is_some() {
            return None;
        }
        match p_string(s3) {
            Some((tv, rt)) => match p_prio(&tv) {
                Some(p) => Some((TaskAcc { priority: Some(p), ..acc }, rt)),
                None => None,
            },
            None => None,
        }
    } else if is_key_tags(&k) {
        if acc.tags.is_some() {
            return None;
        }
        match p_tags(s3) {
            Some((v, rt)) => Some((TaskAcc { tags: Some(v), ..acc }, rt)),
            None => None,
        }
    } else {
        None
    }
}

/// The fields of one record, up to and including the closing brace.
fn p_fields<'a>(s: &'a [char], acc: TaskAcc) -> (r: Option<(TaskAcc, &'a [char])>)
    ensures
        parse_fields(s@, acc_view(&acc)) is None ==> r is None,
        parse_fields(s@, acc_view(&acc)) matches Some((a2, rest)) ==> (r matches Some((racc, rt))
            && acc_view(&racc) == a2 && rt@ == rest),
    decreases s@.len(),
{
    let ghost av = acc_view(&acc);
    let step = match p_field(s, acc) {
        Some(x) => x,
        None => {
            return None;
        },
    };
    let (acc2, s1) = step;
    proof {
        lemma_parse_field_consumes(s@, av);
        lemma_ws_len_bound(s1@);
    }
    let s2 = skip_ws_x(s1);
    if s2.len() == 0 {
        return None;
    }
    if s2[0] == '}' {
        return Some((acc2, tail(s2, 1)));
    }
    if s2[0] == ',' {
        proof {
            lemma_ws_len_bound(s2@.skip(1));
        }
        let s3 = skip_ws_x(tail(s2, 1));
        p_fields(s3, acc2)
    } else {
        None
    }
}

/// One task record read off the front of `s`.
fn p_task<'a>(s: &'a [char]) -> (r: Option<(Task, &'a [char])>)
    ensures
        parse_task(s@) is None ==> r is None,
        parse_task(s@) matches Some((t, rest)) ==> (r matches Some((task, rt)) && task@ == t && rt@
            == rest),
{
    if s.len() == 0 || s[0] != '{' {
        return None;
    }
    proof {
        lemma_ws_len_bound(s@.skip(1));
    }
    let s1 = skip_ws_x(tail(s, 1));
    let acc0 = TaskAcc { id: None, text: None, done: None, due: None, priority: None, tags: None };
    proof {
        assert(acc_view(&acc0) == empty_acc());
    }
    match p_fields(s1, acc0) {
        Some((acc, rt)) => {
            if acc.id.is_none() || acc.text.is_none() || acc.done.is_none() {
                return None;
            }
            let task = Task {
                id: acc.id.unwrap(),
                text: acc.text.unwrap(),
                done: acc.done.unwrap(),
                due: match acc.due {
                    Some(d) => d,
                    None => None,
                },
                priority: match acc.priority {
                    Some(p) => p,
                    None => Priority::Normal,
                },
                tags: match acc.tags {
                    Some(v) => v,
                    None => Vec::new(),
                },
            };
            proof {
                let spec_t = parse_task(s@).unwrap().0;
                assert(task@.tags =~~= spec_t.tags);
                assert(task@ == spec_t);
            }
            Some((task, rt))
        },
        None => None,
    }
}

/// The tail of the document: comma-led further records up to and
/// including the closing bracket.
fn p_tasks_rest<'a>(s: &'a [char]) -> (r: Option<(Vec<Task>, &'a [char])>)
    ensures
        parse_tasks_rest(s@) is None ==> r is None,
        parse_tasks_rest(s@) matches Some((ts, rest)) ==> (r matches Some((v, rt)) && v.deep_view()
            == ts && rt@ == rest),
    decreases s@.len(),
{
    proof {
        lemma_ws_len_bound(s@);
    }
    let s1 = skip_ws_x(s);
    if s1.len() == 0 {
        return None;
    }
    if s1[0] == ']' {
        let out: Vec<Task> = Vec::new();
        proof {
            assert(out.deep_view() =~= Seq::<TaskView>::empty());
        }
        return Some((out, tail(s1, 1)));
    }
    if s1[0] != ',' {
        return None;
    }
    proof {
        lemma_ws_len_bound(s1@.skip(1));
    }
    let s2 = skip_ws_x(tail(s1, 1));
    match p_task(s2) {
        Some((task, rest)) => {
            proof {
                lemma_parse_task_consumes(s2@);
            }
            match p_tasks_rest(rest) {
                Some((mut v, rt)) => {
                    let ghost tv = task@;
                    v.insert(0, task);
                    proof {
                        let spec_ts = parse_tasks_rest(rest@).unwrap().0;
                        assert(v.deep_view() =~= seq![tv] + spec_ts);
                    }
                    Some((v, rt))
                },
                None => None,
            }
        },
        None => None,
    }
}

/// The whole stored document, or nothing where it is not one.
fn p_doc(s: &[char]) -> (r: Option<Vec<Task>>)
    ensures
        parse_doc(s@) is None ==> r is None,
        parse_doc(s@) matches Some(ts) ==> (r matches Some(v) && v.deep_view() == ts),
{
    proof {
        lemma_ws_len_bound(s@);
    }
    let s1 = skip_ws_x(s);
    if s1.len() == 0 || s1[0] != '[' {
        return None;
    }
    proof {
        lemma_ws_len_bound(s1@.skip(1));
    }
    let s2 = skip_ws_x(tail(s1, 1));
    if s2.len() == 0 {
        return None;
    }
    if s2[0] == ']' {
        let after = skip_ws_x(tail(s2, 1));
        if after.len() == 0 {
            let out: Vec<Task> = Vec::new();
            proof {
                lemma_ws_len_bound(s2@.skip(1));
                assert(ws_len(s2@.skip(1)) == s2@.skip(1).len());
                assert(out.deep_view() =~= Seq::<TaskView>::empty());
            }
            return Some(out);
        } else {
            proof {
                lemma_ws_len_bound(s2@.skip(1));
            }
            return None;
        }
    }
    match p_task(s2) {
        Some((task, rest)) => {
            match p_tasks_rest(rest) {
                Some((mut v, rest2)) => {
                    let after = skip_ws_x(rest2);
                    if after.len() == 0 {
                        let ghost tv = task@;
                        v.insert(0, task);
                        proof {
                            lemma_ws_len_bound(rest2@);
                            assert(ws_len(rest2@) == rest2@.len());
                            let spec_ts = parse_tasks_rest(rest@).unwrap().0;
                            assert(v.deep_view() =~= seq![tv] + spec_ts);
                        }
                        Some(v)
                    } else {
                        proof {
                            lemma_ws_len_bound(rest2@);
                        }
                        None
                    }
                },
                None => None,
            }
        },
        None => None,
    }
}

/// Reads a `YYYY-MM-DD` due date handed in on the command surface;
/// anything else is rejected with a usage message.
pub fn parse_due_date(s: &str) -> (r: Result<Date, String>)
    ensures
        date_of_chars(s@) matches Some(d) ==> (r matches Ok(rd) && rd == d),
        date_of_chars(s@) is None ==> r is Err,
{
    let cs = crate::text::chars_of(s);
    match p_date(&cs) {
        Some(d) => Ok(d),
        None => {
            let msg = "Use YYYY-MM-DD, e.g. 2025-02-01";
            Err(msg.to_owned())
        },
    }
}

/// The stored document could not be read as a task collection.
#[derive(Debug, Clone, Copy, PartialEq, Eq, Structural)]
pub struct ParseError;

/// Loads a collection from the stored document's text: an absent file is
/// an empty collection, a present document is read in full or refused.
pub fn load_tasks(content: Option<&str>) -> (r: Result<Vec<Task>, ParseError>)
    ensures
        content is None ==> (r matches Ok(v) && v.deep_view() == Seq::<TaskView>::empty()),
        content matches Some(s) ==> match parse_doc(s@) {
            Some(ts) => r matches Ok(v) && v.deep_view() == ts,
            None => r is Err,
        },
{
    match content {
        None => {
            let out: Vec<Task> = Vec::new();
            proof {
                assert(out.deep_view() =~= Seq::<TaskView>::empty());
            }
            Ok(out)
        },
        Some(text) => {
            let cs = crate::text::chars_of(text);
            match p_doc(cs.as_slice()) {
                Some(v) => Ok(v),
                None => Err(ParseError),
            }
        },
    }
}

} // verus!
