use vstd::prelude::*;

use crate::config::{ConfigError, ConfigModel, MailConfig};
use crate::text::{chars_vec, string_from_chars};

verus! {

// ---------------------------------------------------------------------------
// The configuration file format.
//
// A saved configuration is one JSON object holding the five fields, in any
// order; unknown members are read and ignored, a member given twice is
// refused, strings carry the usual escapes (`\uXXXX` for any character of the
// basic plane outside the surrogate range), the port is a plain decimal
// number, and whitespace between tokens is free. `render_config` is the exact
// text the encoder writes; `parse_config` is the meaning of any text the
// decoder accepts. Parsing what was rendered gives the record back
// (`lemma_render_parse_config`).
// ---------------------------------------------------------------------------
/// A decimal digit.
pub open spec fn is_digit(c: char) -> bool {
    48 <= c as u32 <= 57
}

pub open spec fn digit_val(c: char) -> int {
    c as u32 - 48
}

pub open spec fn digit_char(d: int) -> char {
    if d == 0 {
        '0'
    } else if d == 1 {
        '1'
    } else if d == 2 {
        '2'
    } else if d == 3 {
        '3'
    } else if d == 4 {
        '4'
    } else if d == 5 {
        '5'
    } else if d == 6 {
        '6'
    } else if d == 7 {
        '7'
    } else if d == 8 {
        '8'
    } else {
        '9'
    }
}

/// The decimal digits of a non-negative number, most significant first.
pub open spec fn digits_of(n: int) -> Seq<char>
    decreases n,
{
    if n < 10 {
        seq![digit_char(n)]
    } else {
        digits_of(n / 10).push(digit_char(n % 10))
    }
}

/// A hexadecimal digit.
pub open spec fn is_hex(c: char) -> bool {
    is_digit(c) || (97 <= c as u32 <= 102) || (65 <= c as u32 <= 70)
}

pub open spec fn hex_val(c: char) -> int {
    if is_digit(c) {
        c as u32 - 48
    } else if 97 <= c as u32 <= 102 {
        c as u32 - 87
    } else {
        c as u32 - 55
    }
}

pub open spec fn hex_digit(d: int) -> char {
    if d < 10 {
        digit_char(d)
    } else if d == 10 {
        'a'
    } else if d == 11 {
        'b'
    } else if d == 12 {
        'c'
    } else if d == 13 {
        'd'
    } else if d == 14 {
        'e'
    } else {
        'f'
    }
}

/// How one character is written inside a string value: the short escapes of
/// JSON, `\u00..` for the remaining control characters, the character itself
/// otherwise.
pub open spec fn escape_char(c: char) -> Seq<char> {
    if c == '"' {
        seq!['\\', '"']
    } else if c == '\\' {
        seq!['\\', '\\']
    } else if c == '\n' {
        seq!['\\', 'n']
    } else if c == '\r' {
        seq!['\\', 'r']
    } else if c == '\t' {
        seq!['\\', 't']
    } else if c == '\u{8}' {
        seq!['\\', 'b']
    } else if c == '\u{c}' {
        seq!['\\', 'f']
    } else if (c as u32) < 32 {
        seq!['\\', 'u', '0', '0', hex_digit((c as u32 / 16) as int), hex_digit((c as u32 % 16) as int)]
    } else {
        seq![c]
    }
}

/// A string value as written between its quotes.
pub open spec fn escape(s: Seq<char>) -> Seq<char>
    decreases s.len(),
{
    if s.len() == 0 {
        Seq::<char>::empty()
    } else {
        escape_char(s[0]) + escape(s.drop_first())
    }
}

/// One string field as written: newline, indent, quoted key, colon, space,
/// quoted escaped value.
pub open spec fn sfield_text(key: Seq<char>, v: Seq<char>) -> Seq<char> {
    "\n  "@ + "\""@ + key + "\""@ + ":"@ + " "@ + "\""@ + escape(v) + "\""@
}

/// The port field as written: newline, indent, quoted key, colon, space,
/// decimal digits.
pub open spec fn pfield_text(n: u16) -> Seq<char> {
    "\n  "@ + "\""@ + "smtp_port"@ + "\""@ + ":"@ + " "@ + digits_of(n as int)
}

/// The exact text the encoder writes for a configuration record.
pub open spec fn render_config(c: ConfigModel) -> Seq<char> {
    "{"@ + sfield_text("smtp_server"@, c.smtp_server) + ","@ + pfield_text(c.smtp_port) + ","@
        + sfield_text("email_address"@, c.email_address) + ","@ + sfield_text(
        "password"@,
        c.password,
    ) + ","@ + sfield_text("sender_name"@, c.sender_name) + "\n"@ + "}"@
}

// ---------------------------------------------------------------------------
// Parsing, specification. Every combinator consumes from the front of the
// text and hands back what is left. The recursions over an object's members
// and over nested values carry a step budget; a step always consumes at least
// one character first, so a budget of the text's length never runs out on
// text the grammar accepts.
// ---------------------------------------------------------------------------
/// The whitespace JSON allows between tokens.
pub open spec fn is_json_ws(c: char) -> bool {
    c == ' ' || c == '\t' || c == '\r' || c == '\n'
}

fn is_json_ws_char(c: char) -> (r: bool)
    ensures
        r == is_json_ws(c),
{
    c == ' ' || c == '\t' || c == '\r' || c == '\n'
}

/// Drops leading whitespace.
pub open spec fn skip_ws(s: Seq<char>) -> Seq<char>
    decreases s.len(),
{
    if s.len() > 0 && is_json_ws(s[0]) {
        skip_ws(s.drop_first())
    } else {
        s
    }
}

/// Consumes the literal `lit`, or fails.
pub open spec fn expect(s: Seq<char>, lit: Seq<char>) -> Option<Seq<char>> {
    if lit.len() <= s.len() && s.take(lit.len() as int) == lit {
        Some(s.skip(lit.len() as int))
    } else {
        None
    }
}

/// Consumes whitespace, then the literal `lit`.
pub open spec fn expect_tok(s: Seq<char>, lit: Seq<char>) -> Option<Seq<char>> {
    expect(skip_ws(s), lit)
}

/// The character an escape letter stands for.
pub open spec fn unescape_char(e: char) -> char {
    if e == 'n' {
        '\n'
    } else if e == 'r' {
        '\r'
    } else if e == 't' {
        '\t'
    } else if e == 'b' {
        '\u{8}'
    } else if e == 'f' {
        '\u{c}'
    } else {
        e
    }
}

/// A string value read after its opening quote: plain characters and escapes
/// up to the closing quote. Raw control characters are refused, and a `\u`
/// escape must name a character of the basic plane outside the surrogate
/// range.
pub open spec fn parse_jstring(s: Seq<char>) -> Option<(Seq<char>, Seq<char>)>
    decreases s.len(),
{
    if s.len() == 0 {
        None
    } else if s[0] == '"' {
        Some((Seq::<char>::empty(), s.drop_first()))
    } else if s[0] == '\\' {
        if s.len() < 2 {
            None
        } else {
            let e = s[1];
            if e == '"' || e == '\\' || e == '/' || e == 'n' || e == 'r' || e == 't' || e == 'b'
                || e == 'f' {
                match parse_jstring(s.skip(2)) {
                    Some(vr) => Some((seq![unescape_char(e)] + vr.0, vr.1)),
                    None => None,
                }
            } else if e == 'u' {
                if s.len() >= 6 && is_hex(s[2]) && is_hex(s[3]) && is_hex(s[4]) && is_hex(s[5]) {
                    let code: int = hex_val(s[2]) * 4096 + hex_val(s[3]) * 256 + hex_val(s[4]) * 16
                        + hex_val(s[5]);
                    if code < 0xD800 || code >= 0xE000 {
                        match parse_jstring(s.skip(6)) {
                            Some(vr) => Some((seq![((code as u32) as char)] + vr.0, vr.1)),
                            None => None,
                        }
                    } else {
                        None
                    }
                } else {
                    None
                }
            } else {
                None
            }
        }
    } else if (s[0] as u32) < 32 {
        None
    } else {
        match parse_jstring(s.drop_first()) {
            Some(vr) => Some((seq![s[0]] + vr.0, vr.1)),
            None => None,
        }
    }
}

/// Decimal digits folded into a value, refusing anything above 65535.
pub open spec fn parse_digits(s: Seq<char>, acc: int) -> Option<(int, Seq<char>)>
    decreases s.len(),
{
    if s.len() > 0 && is_digit(s[0]) {
        let a2: int = acc * 10 + digit_val(s[0]);
        if a2 > 65535 {
            None
        } else {
            parse_digits(s.drop_first(), a2)
        }
    } else {
        Some((acc, s))
    }
}

/// A port number: whitespace, then at least one digit, no leading zero, value
/// at most 65535.
pub open spec fn parse_port(s: Seq<char>) -> Option<(u16, Seq<char>)> {
    let t = skip_ws(s);
    if t.len() > 0 && is_digit(t[0]) {
        if t[0] == '0' {
            if t.len() >= 2 && is_digit(t[1]) {
                None
            } else {
                Some((0u16, t.drop_first()))
            }
        } else {
            match parse_digits(t, 0) {
                Some(vr) => Some(((vr.0 as u16), vr.1)),
                None => None,
            }
        }
    } else {
        None
    }
}

/// A quoted string token: whitespace, the opening quote, then the value.
pub open spec fn parse_quoted(s: Seq<char>) -> Option<(Seq<char>, Seq<char>)> {
    match expect_tok(s, "\""@) {
        Some(s1) => parse_jstring(s1),
        None => None,
    }
}

/// The longest run of digits dropped from the front.
pub open spec fn skip_digits(s: Seq<char>) -> Seq<char>
    decreases s.len(),
{
    if s.len() > 0 && is_digit(s[0]) {
        skip_digits(s.drop_first())
    } else {
        s
    }
}

/// The fraction part of a number, if one is present.
pub open spec fn skip_frac(s: Seq<char>) -> Option<Seq<char>> {
    if s.len() > 0 && s[0] == '.' {
        if s.len() >= 2 && is_digit(s[1]) {
            Some(skip_digits(s.drop_first()))
        } else {
            None
        }
    } else {
        Some(s)
    }
}

/// The exponent part of a number, if one is present.
pub open spec fn skip_exp(s: Seq<char>) -> Option<Seq<char>> {
    if s.len() > 0 && (s[0] == 'e' || s[0] == 'E') {
        let t: Seq<char> = if s.len() >= 2 && (s[1] == '+' || s[1] == '-') {
            s.skip(2)
        } else {
            s.drop_first()
        };
        if t.len() > 0 && is_digit(t[0]) {
            Some(skip_digits(t))
        } else {
            None
        }
    } else {
        Some(s)
    }
}

/// A JSON number, consumed and ignored (whitespace already dropped).
pub open spec fn skip_number(s: Seq<char>) -> Option<Seq<char>> {
    let t1: Seq<char> = if s.len() > 0 && s[0] == '-' {
        s.drop_first()
    } else {
        s
    };
    if t1.len() > 0 && is_digit(t1[0]) {
        let t2: Seq<char> = if t1[0] == '0' {
            t1.drop_first()
        } else {
            skip_digits(t1)
        };
        if t2.len() > 0 && is_digit(t2[0]) {
            None
        } else {
            match skip_frac(t2) {
                Some(t3) => skip_exp(t3),
                None => None,
            }
        }
    } else {
        None
    }
}

/// One JSON value of any shape, consumed and ignored (an unknown member's
/// value).
pub open spec fn skip_value(s: Seq<char>, fuel: nat) -> Option<Seq<char>>
    decreases fuel, 0int,
{
    if fuel == 0 {
        None
    } else {
        let t = skip_ws(s);
        if t.len() == 0 {
            None
        } else if t[0] == '"' {
            match parse_jstring(t.drop_first()) {
                Some(vr) => Some(vr.1),
                None => None,
            }
        } else if t[0] == 't' {
            expect(t, "true"@)
        } else if t[0] == 'f' {
            expect(t, "false"@)
        } else if t[0] == 'n' {
            expect(t, "null"@)
        } else if t[0] == '{' {
            skip_members(t.drop_first(), true, (fuel - 1) as nat)
        } else if t[0] == '[' {
            skip_elements(t.drop_first(), true, (fuel - 1) as nat)
        } else if t[0] == '-' || is_digit(t[0]) {
            skip_number(t)
        } else {
            None
        }
    }
}

/// The members of an ignored object, after its opening brace.
pub open spec fn skip_members(s: Seq<char>, first: bool, fuel: nat) -> Option<Seq<char>>
    decreases fuel, 1int,
{
    if fuel == 0 {
        None
    } else if first && expect_tok(s, "}"@) is Some {
        expect_tok(s, "}"@)
    } else {
        match parse_quoted(s) {
            Some(kr) => match expect_tok(kr.1, ":"@) {
                Some(s2) => match skip_value(s2, fuel) {
                    Some(r) => match expect_tok(r, ","@) {
                        Some(r2) => skip_members(r2, false, (fuel - 1) as nat),
                        None => expect_tok(r, "}"@),
                    },
                    None => None,
                },
                None => None,
            },
            None => None,
        }
    }
}

/// The elements of an ignored array, after its opening bracket.
pub open spec fn skip_elements(s: Seq<char>, first: bool, fuel: nat) -> Option<Seq<char>>
    decreases fuel, 1int,
{
    if fuel == 0 {
        None
    } else if first && expect_tok(s, "]"@) is Some {
        expect_tok(s, "]"@)
    } else {
        match skip_value(s, fuel) {
            Some(r) => match expect_tok(r, ","@) {
                Some(r2) => skip_elements(r2, false, (fuel - 1) as nat),
                None => expect_tok(r, "]"@),
            },
            None => None,
        }
    }
}

/// The fields collected so far while reading the object's members.
#[verifier::ext_equal]
pub struct PartialConfig {
    pub smtp_server: Option<Seq<char>>,
    pub smtp_port: Option<u16>,
    pub email_address: Option<Seq<char>>,
    pub password: Option<Seq<char>>,
    pub sender_name: Option<Seq<char>>,
}

/// No field seen yet.
pub open spec fn no_fields() -> PartialConfig {
    PartialConfig {
        smtp_server: None,
        smtp_port: None,
        email_address: None,
        password: None,
        sender_name: None,
    }
}

/// One member: its decoded key, a colon, and the value. A known key fills its
/// field, and giving one twice is refused; an unknown key's value is read and
/// ignored.
#[verifier::opaque]
pub open spec fn parse_member(s: Seq<char>, acc: PartialConfig, fuel: nat) -> Option<
    (PartialConfig, Seq<char>),
> {
    match parse_quoted(s) {
        Some(kr) => match expect_tok(kr.1, ":"@) {
            Some(s2) => {
                let key = kr.0;
                if key == "smtp_server"@ {
                    if acc.smtp_server is Some {
                        None
                    } else {
                        match parse_quoted(s2) {
                            Some(vr) => Some(
                                (
                                    PartialConfig {
                                        smtp_server: Some(vr.0),
                                        smtp_port: acc.smtp_port,
                                        email_address: acc.email_address,
                                        password: acc.password,
                                        sender_name: acc.sender_name,
                                    },
                                    vr.1,
                                ),
                            ),
                            None => None,
                        }
                    }
                } else if key == "smtp_port"@ {
                    if acc.smtp_port is Some {
                        None
                    } else {
                        match parse_port(s2) {
                            Some(vr) => Some(
                                (
                                    PartialConfig {
                                        smtp_server: acc.smtp_server,
                                        smtp_port: Some(vr.0),
                                        email_address: acc.email_address,
                                        password: acc.password,
                                        sender_name: acc.sender_name,
                                    },
                                    vr.1,
                                ),
                            ),
                            None => None,
                        }
                    }
                } else if key == "email_address"@ {
                    if acc.email_address is Some {
                        None
                    } else {
                        match parse_quoted(s2) {
                            Some(vr) => Some(
                                (
                                    PartialConfig {
                                        smtp_server: acc.smtp_server,
                                        smtp_port: acc.smtp_port,
                                        email_address: Some(vr.0),
                                        password: acc.password,
                                        sender_name: acc.sender_name,
                                    },
                                    vr.1,
                                ),
                            ),
                            None => None,
                        }
                    }
                } else if key == "password"@ {
                    if acc.password is Some {
                        None
                    } else {
                        match parse_quoted(s2) {
                            Some(vr) => Some(
                                (
                                    PartialConfig {
                                        smtp_server: acc.smtp_server,
                                        smtp_port: acc.smtp_port,
                                        email_address: acc.email_address,
                                        password: Some(vr.0),
                                        sender_name: acc.sender_name,
                                    },
                                    vr.1,
                                ),
                            ),
                            None => None,
                        }
                    }
                } else if key == "sender_name"@ {
                    if acc.sender_name is Some {
                        None
                    } else {
                        match parse_quoted(s2) {
                            Some(vr) => Some(
                                (
                                    PartialConfig {
                                        smtp_server: acc.smtp_server,
                                        smtp_port: acc.smtp_port,
                                        email_address: acc.email_address,
                                        password: acc.password,
                                        sender_name: Some(vr.0),
                                    },
                                    vr.1,
                                ),
                            ),
                            None => None,
                        }
                    }
                } else {
                    match skip_value(s2, fuel) {
                        Some(r) => Some((acc, r)),
                        None => None,
                    }
                }
            },
            None => None,
        },
        None => None,
    }
}

/// The members of the configuration object, one after another, up to and past
/// the closing brace.
pub open spec fn parse_members(s: Seq<char>, acc: PartialConfig, fuel: nat) -> Option<
    (PartialConfig, Seq<char>),
>
    decreases fuel,
{
    if fuel == 0 {
        None
    } else {
        match parse_member(s, acc, (fuel - 1) as nat) {
            Some(mr) => match expect_tok(mr.1, ","@) {
                Some(s2) => parse_members(s2, mr.0, (fuel - 1) as nat),
                None => match expect_tok(mr.1, "}"@) {
                    Some(s3) => Some((mr.0, s3)),
                    None => None,
                },
            },
            None => None,
        }
    }
}

/// The meaning of a configuration file: one object giving each of the five
/// fields exactly once, in any order, with nothing but whitespace after it.
pub open spec fn parse_config(s: Seq<char>) -> Option<ConfigModel> {
    match expect_tok(s, "{"@) {
        Some(s1) => match parse_members(s1, no_fields(), s.len() + 1) {
            Some(pr) => if skip_ws(pr.1).len() == 0 {
                let p = pr.0;
                if p.smtp_server is Some && p.smtp_port is Some && p.email_address is Some
                    && p.password is Some && p.sender_name is Some {
                    Some(
                        ConfigModel {
                            smtp_server: p.smtp_server->Some_0,
                            smtp_port: p.smtp_port->Some_0,
                            email_address: p.email_address->Some_0,
                            password: p.password->Some_0,
                            sender_name: p.sender_name->Some_0,
                        },
                    )
                } else {
                    None
                }
            } else {
                None
            },
            None => None,
        },
        None => None,
    }
}

// ---------------------------------------------------------------------------
// The round trip: parsing a rendered record gives the record back.
// ---------------------------------------------------------------------------
proof fn lemma_skip_ws_all(wsp: Seq<char>, s: Seq<char>)
    requires
        forall|i: int| 0 <= i < wsp.len() ==> is_json_ws(wsp[i]),
    ensures
        skip_ws(wsp + s) == skip_ws(s),
    decreases wsp.len(),
{
    if wsp.len() == 0 {
        assert(wsp + s =~= s);
    } else {
        assert((wsp + s)[0] == wsp[0]);
        assert((wsp + s).drop_first() =~= wsp.drop_first() + s);
        lemma_skip_ws_all(wsp.drop_first(), s);
    }
}

proof fn lemma_expect_prefix(lit: Seq<char>, rest: Seq<char>)
    ensures
        expect(lit + rest, lit) == Some(rest),
{
    assert((lit + rest).take(lit.len() as int) =~= lit);
    assert((lit + rest).skip(lit.len() as int) =~= rest);
}

/// Consuming a token after whitespace: whitespace, the literal, and the rest
/// concatenated give back exactly the rest.
proof fn lemma_expect_tok_cat(wsp: Seq<char>, lit: Seq<char>, rest: Seq<char>)
    requires
        forall|i: int| 0 <= i < wsp.len() ==> is_json_ws(wsp[i]),
        lit.len() > 0,
        !is_json_ws(lit[0]),
    ensures
        expect_tok(wsp + lit + rest, lit) == Some(rest),
{
    assert(wsp + lit + rest =~= wsp + (lit + rest));
    lemma_skip_ws_all(wsp, lit + rest);
    assert((lit + rest)[0] == lit[0]);
    assert(skip_ws(lit + rest) == lit + rest);
    lemma_expect_prefix(lit, rest);
}

/// Reading back an escaped string value: the escapes decode to the original
/// characters and the closing quote ends the value.
proof fn lemma_parse_jstring_escape(v: Seq<char>, rest: Seq<char>)
    ensures
        parse_jstring(escape(v) + "\""@ + rest) == Some((v, rest)),
    decreases v.len(),
{
    reveal_strlit("\"");
    let s = escape(v) + "\""@ + rest;
    if v.len() == 0 {
        assert(s[0] == '"');
        assert(s.drop_first() =~= rest);
    } else {
        let c = v[0];
        let tail = v.drop_first();
        let ec = escape_char(c);
        assert(escape(v) == ec + escape(tail));
        let k = ec.len() as int;
        assert(forall|i: int| 0 <= i < k ==> s[i] == ec[i]);
        assert(s.skip(k) =~= escape(tail) + "\""@ + rest);
        lemma_parse_jstring_escape(tail, rest);
        if c == '"' || c == '\\' || c == '\n' || c == '\r' || c == '\t' || c == '\u{8}' || c
            == '\u{c}' {
            assert(s[0] == '\\');
            assert(s.len() >= 2);
            let e = s[1];
            assert(unescape_char(e) == c);
            assert(s.skip(2) == escape(tail) + "\""@ + rest);
            assert(seq![c] + tail =~= v);
        } else if (c as u32) < 32 {
            assert(s[0] == '\\' && s[1] == 'u' && s[2] == '0' && s[3] == '0');
            let hi = (c as u32 / 16) as int;
            let lo = (c as u32 % 16) as int;
            assert(0 <= hi < 16 && 0 <= lo < 16) by {
                vstd::arithmetic::div_mod::lemma_fundamental_div_mod(c as u32 as int, 16);
            }
            assert(s[4] == hex_digit(hi) && s[5] == hex_digit(lo));
            assert(is_hex(hex_digit(hi)) && hex_val(hex_digit(hi)) == hi);
            assert(is_hex(hex_digit(lo)) && hex_val(hex_digit(lo)) == lo);
            assert(is_hex('0') && hex_val('0') == 0);
            let code: int = hex_val(s[2]) * 4096 + hex_val(s[3]) * 256 + hex_val(s[4]) * 16
                + hex_val(s[5]);
            assert(code == hi * 16 + lo);
            assert(code == c as u32) by {
                vstd::arithmetic::div_mod::lemma_fundamental_div_mod(c as u32 as int, 16);
            }
            assert(code < 32);
            assert(((code as u32) as char) == c) by {
                vstd::utf8::char_u32_cast(c, c as u32);
            }
            assert(s.skip(6) == escape(tail) + "\""@ + rest);
            assert(seq![c] + tail =~= v);
        } else {
            assert(ec == seq![c]);
            assert(s[0] == c);
            assert(s[0] != '"' && s[0] != '\\' && !((s[0] as u32) < 32));
            assert(s.drop_first() =~= s.skip(1));
            assert(s.skip(1) == escape(tail) + "\""@ + rest);
            assert(seq![c] + tail =~= v);
        }
    }
}

/// Reading back a string of plain characters (a key).
proof fn lemma_parse_jstring_plain(k: Seq<char>, rest: Seq<char>)
    requires
        forall|i: int|
            0 <= i < k.len() ==> #[trigger] k[i] != '"' && k[i] != '\\' && (k[i] as u32) >= 32,
    ensures
        parse_jstring(k + "\""@ + rest) == Some((k, rest)),
    decreases k.len(),
{
    reveal_strlit("\"");
    let s = k + "\""@ + rest;
    if k.len() == 0 {
        assert(s[0] == '"');
        assert(s.drop_first() =~= rest);
    } else {
        assert(s[0] == k[0]);
        assert(s.drop_first() =~= k.drop_first() + "\""@ + rest);
        lemma_parse_jstring_plain(k.drop_first(), rest);
        assert(seq![k[0]] + k.drop_first() =~= k);
    }
}

/// Reading digits stops exactly at the first non-digit.
proof fn lemma_parse_digits_concat(ds: Seq<char>, rest: Seq<char>, a: int)
    requires
        parse_digits(ds, a) == Some((parse_digits(ds, a)->Some_0.0, Seq::<char>::empty())),
        rest.len() > 0 ==> !is_digit(rest[0]),
    ensures
        parse_digits(ds + rest, a) == Some((parse_digits(ds, a)->Some_0.0, rest)),
    decreases ds.len(),
{
    if ds.len() == 0 {
        assert(ds + rest =~= rest);
    } else {
        if !is_digit(ds[0]) {
            assert(parse_digits(ds, a) == Some((a, ds)));
            assert(false);
        }
        assert((ds + rest)[0] == ds[0]);
        let a2: int = a * 10 + digit_val(ds[0]);
        assert(a2 <= 65535);
        assert((ds + rest).drop_first() =~= ds.drop_first() + rest);
        lemma_parse_digits_concat(ds.drop_first(), rest, a2);
    }
}

/// Appending one digit multiplies the value by ten and adds the digit.
proof fn lemma_parse_digits_push(ds: Seq<char>, c: char, a: int, x: int)
    requires
        parse_digits(ds, a) == Some((x, Seq::<char>::empty())),
        is_digit(c),
        x * 10 + digit_val(c) <= 65535,
    ensures
        parse_digits(ds.push(c), a) == Some((x * 10 + digit_val(c), Seq::<char>::empty())),
    decreases ds.len(),
{
    if ds.len() == 0 {
        assert(x == a);
        assert(ds.push(c)[0] == c);
        assert(ds.push(c).drop_first() =~= Seq::<char>::empty());
        let a2: int = a * 10 + digit_val(c);
        assert(parse_digits(Seq::<char>::empty(), a2) == Some((a2, Seq::<char>::empty())));
        assert(parse_digits(ds.push(c), a) == Some((a2, Seq::<char>::empty())));
    } else {
        if !is_digit(ds[0]) {
            assert(parse_digits(ds, a) == Some((a, ds)));
            assert(false);
        }
        assert(ds.push(c)[0] == ds[0]);
        let a2: int = a * 10 + digit_val(ds[0]);
        assert(a2 <= 65535);
        assert(ds.push(c).drop_first() =~= ds.drop_first().push(c));
        lemma_parse_digits_push(ds.drop_first(), c, a2, x);
    }
}

/// The digits of `n` read back as `n`, they are all digits, and for a
/// positive `n` the first is not zero.
proof fn lemma_digits_of_value(n: int)
    requires
        0 <= n <= 65535,
    ensures
        digits_of(n).len() >= 1,
        forall|i: int| 0 <= i < digits_of(n).len() ==> is_digit(#[trigger] digits_of(n)[i]),
        parse_digits(digits_of(n), 0) == Some((n, Seq::<char>::empty())),
        n >= 1 ==> digits_of(n)[0] != '0',
    decreases n,
{
    if n < 10 {
        assert(is_digit(digit_char(n)) && digit_val(digit_char(n)) == n);
        let ds = seq![digit_char(n)];
        assert(ds.drop_first() =~= Seq::<char>::empty());
        assert(parse_digits(Seq::<char>::empty(), n) == Some((n, Seq::<char>::empty())));
        assert(parse_digits(ds, 0) == Some((n, Seq::<char>::empty())));
    } else {
        vstd::arithmetic::div_mod::lemma_fundamental_div_mod(n, 10);
        lemma_digits_of_value(n / 10);
        let c = digit_char(n % 10);
        assert(is_digit(c) && digit_val(c) == n % 10);
        lemma_parse_digits_push(digits_of(n / 10), c, 0, n / 10);
        assert(digits_of(n)[0] == digits_of(n / 10)[0]);
        assert(forall|i: int|
            0 <= i < digits_of(n).len() ==> is_digit(#[trigger] digits_of(n)[i]));
    }
}

/// A digit character is not whitespace.
proof fn lemma_digit_not_ws(c: char)
    requires
        is_digit(c),
    ensures
        !is_json_ws(c),
{
}

/// Reading back one rendered string field: the key token, the colon, and the
/// value, each with what follows it.
proof fn lemma_sfield_parts(key: Seq<char>, v: Seq<char>, rest: Seq<char>)
    requires
        forall|i: int|
            0 <= i < key.len() ==> #[trigger] key[i] != '"' && key[i] != '\\' && (key[i] as u32)
                >= 32,
    ensures
        parse_quoted(sfield_text(key, v) + rest) == Some(
            (key, ":"@ + " "@ + "\""@ + escape(v) + "\""@ + rest),
        ),
        expect_tok(":"@ + " "@ + "\""@ + escape(v) + "\""@ + rest, ":"@) == Some(
            " "@ + "\""@ + escape(v) + "\""@ + rest,
        ),
        parse_quoted(" "@ + "\""@ + escape(v) + "\""@ + rest) == Some((v, rest)),
{
    reveal_strlit("\n  ");
    reveal_strlit(":");
    reveal_strlit(" ");
    reveal_strlit("\"");
    let r1 = ":"@ + " "@ + "\""@ + escape(v) + "\""@ + rest;
    assert(sfield_text(key, v) + rest =~= "\n  "@ + "\""@ + (key + "\""@ + r1));
    lemma_expect_tok_cat("\n  "@, "\""@, key + "\""@ + r1);
    lemma_parse_jstring_plain(key, r1);
    let r2 = " "@ + "\""@ + escape(v) + "\""@ + rest;
    assert(r1 =~= Seq::<char>::empty() + ":"@ + r2);
    lemma_expect_tok_cat(Seq::<char>::empty(), ":"@, r2);
    let r3 = escape(v) + "\""@ + rest;
    assert(r2 =~= " "@ + "\""@ + r3);
    lemma_expect_tok_cat(" "@, "\""@, r3);
    lemma_parse_jstring_escape(v, rest);
}

/// Reading back the rendered port field in the same three steps.
proof fn lemma_pfield_parts(n: u16, rest: Seq<char>)
    requires
        rest.len() > 0,
        !is_digit(rest[0]),
    ensures
        parse_quoted(pfield_text(n) + rest) == Some(
            ("smtp_port"@, ":"@ + " "@ + digits_of(n as int) + rest),
        ),
        expect_tok(":"@ + " "@ + digits_of(n as int) + rest, ":"@) == Some(
            " "@ + digits_of(n as int) + rest,
        ),
        parse_port(" "@ + digits_of(n as int) + rest) == Some((n, rest)),
{
    reveal_strlit("\n  ");
    reveal_strlit("smtp_port");
    reveal_strlit(":");
    reveal_strlit(" ");
    reveal_strlit("\"");
    lemma_digits_of_value(n as int);
    let dd = digits_of(n as int);
    let r1 = ":"@ + " "@ + dd + rest;
    assert(pfield_text(n) + rest =~= "\n  "@ + "\""@ + ("smtp_port"@ + "\""@ + r1));
    lemma_expect_tok_cat("\n  "@, "\""@, "smtp_port"@ + "\""@ + r1);
    lemma_parse_jstring_plain("smtp_port"@, r1);
    let r2 = " "@ + dd + rest;
    assert(r1 =~= Seq::<char>::empty() + ":"@ + r2);
    lemma_expect_tok_cat(Seq::<char>::empty(), ":"@, r2);
    lemma_digit_not_ws(dd[0]);
    assert(r2 =~= " "@ + (dd + rest));
    lemma_skip_ws_all(" "@, dd + rest);
    assert((dd + rest)[0] == dd[0]);
    assert(skip_ws(dd + rest) == dd + rest);
    let t = dd + rest;
    if n == 0 {
        assert(dd =~= seq![digit_char(0)]);
        assert(t[0] == '0');
        assert(t.len() >= 2 ==> t[1] == rest[0]);
        assert(t.drop_first() =~= rest);
    } else {
        assert(t[0] != '0');
        lemma_parse_digits_concat(dd, rest, 0);
    }
    assert(parse_port(r2) == Some((n, rest)));
}

/// Reading back one whole rendered string member, for each known key.
proof fn lemma_member_server(v: Seq<char>, rest: Seq<char>, acc: PartialConfig, fuel: nat)
    requires
        acc.smtp_server is None,
    ensures
        parse_member(sfield_text("smtp_server"@, v) + rest, acc, fuel) == Some(
            (PartialConfig { smtp_server: Some(v), ..acc }, rest),
        ),
{
    reveal(parse_member);
    reveal_strlit("smtp_server");
    lemma_sfield_parts("smtp_server"@, v, rest);
}

proof fn lemma_member_port(n: u16, rest: Seq<char>, acc: PartialConfig, fuel: nat)
    requires
        acc.smtp_port is None,
        rest.len() > 0,
        !is_digit(rest[0]),
    ensures
        parse_member(pfield_text(n) + rest, acc, fuel) == Some(
            (PartialConfig { smtp_port: Some(n), ..acc }, rest),
        ),
{
    reveal(parse_member);
    reveal_strlit("smtp_port");
    reveal_strlit("smtp_server");
    lemma_pfield_parts(n, rest);
    assert("smtp_port"@ != "smtp_server"@);
}

proof fn lemma_member_email(v: Seq<char>, rest: Seq<char>, acc: PartialConfig, fuel: nat)
    requires
        acc.email_address is None,
    ensures
        parse_member(sfield_text("email_address"@, v) + rest, acc, fuel) == Some(
            (PartialConfig { email_address: Some(v), ..acc }, rest),
        ),
{
    reveal(parse_member);
    reveal_strlit("email_address");
    reveal_strlit("smtp_server");
    reveal_strlit("smtp_port");
    lemma_sfield_parts("email_address"@, v, rest);
    assert("email_address"@ != "smtp_server"@ && "email_address"@ != "smtp_port"@);
}

proof fn lemma_member_password(v: Seq<char>, rest: Seq<char>, acc: PartialConfig, fuel: nat)
    requires
        acc.password is None,
    ensures
        parse_member(sfield_text("password"@, v) + rest, acc, fuel) == Some(
            (PartialConfig { password: Some(v), ..acc }, rest),
        ),
{
    reveal(parse_member);
    reveal_strlit("password");
    reveal_strlit("smtp_server");
    reveal_strlit("smtp_port");
    reveal_strlit("email_address");
    lemma_sfield_parts("password"@, v, rest);
    assert("password"@ != "smtp_server"@ && "password"@ != "smtp_port"@ && "password"@
        != "email_address"@);
}

proof fn lemma_member_sender(v: Seq<char>, rest: Seq<char>, acc: PartialConfig, fuel: nat)
    requires
        acc.sender_name is None,
    ensures
        parse_member(sfield_text("sender_name"@, v) + rest, acc, fuel) == Some(
            (PartialConfig { sender_name: Some(v), ..acc }, rest),
        ),
{
    reveal(parse_member);
    reveal_strlit("sender_name");
    reveal_strlit("smtp_server");
    reveal_strlit("smtp_port");
    reveal_strlit("email_address");
    reveal_strlit("password");
    lemma_sfield_parts("sender_name"@, v, rest);
    assert("sender_name"@ != "smtp_server"@) by {
        assert("sender_name"@[1] == 'e' && "smtp_server"@[1] == 'm');
    }
    assert("sender_name"@ != "smtp_port"@ && "sender_name"@ != "email_address"@ && "sender_name"@
        != "password"@);
}

/// Parsing what the encoder wrote gives every field back exactly.
#[verifier::rlimit(100)]
pub proof fn lemma_render_parse_config(c: ConfigModel)
    ensures
        parse_config(render_config(c)) == Some(c),
{
    reveal_strlit("{");
    reveal_strlit("}");
    reveal_strlit(",");
    reveal_strlit("\n");
    reveal_strlit("\n  ");
    reveal_strlit("\"");
    reveal_strlit(":");
    reveal_strlit(" ");
    reveal_strlit("smtp_server");
    reveal_strlit("smtp_port");
    reveal_strlit("email_address");
    reveal_strlit("password");
    reveal_strlit("sender_name");
    let f1 = sfield_text("smtp_server"@, c.smtp_server);
    let p2 = pfield_text(c.smtp_port);
    let f3 = sfield_text("email_address"@, c.email_address);
    let f4 = sfield_text("password"@, c.password);
    let f5 = sfield_text("sender_name"@, c.sender_name);
    let s = render_config(c);
    let fuel = s.len() + 1;
    assert(s.len() >= 10);
    let r1 = f1 + ","@ + p2 + ","@ + f3 + ","@ + f4 + ","@ + f5 + "\n"@ + "}"@;
    assert(s =~= Seq::<char>::empty() + "{"@ + r1);
    lemma_expect_tok_cat(Seq::<char>::empty(), "{"@, r1);

    let acc0 = no_fields();
    // first member: smtp_server
    let rest1 = ","@ + p2 + ","@ + f3 + ","@ + f4 + ","@ + f5 + "\n"@ + "}"@;
    assert(r1 =~= f1 + rest1);
    lemma_member_server(c.smtp_server, rest1, acc0, (fuel - 1) as nat);
    let acc1 = PartialConfig { smtp_server: Some(c.smtp_server), ..acc0 };
    let n1 = p2 + ","@ + f3 + ","@ + f4 + ","@ + f5 + "\n"@ + "}"@;
    assert(rest1 =~= Seq::<char>::empty() + ","@ + n1);
    lemma_expect_tok_cat(Seq::<char>::empty(), ","@, n1);

    // second member: smtp_port
    let rest2 = ","@ + f3 + ","@ + f4 + ","@ + f5 + "\n"@ + "}"@;
    assert(n1 =~= p2 + rest2);
    assert(rest2[0] == ',' && !is_digit(','));
    lemma_member_port(c.smtp_port, rest2, acc1, (fuel - 2) as nat);
    let acc2 = PartialConfig { smtp_port: Some(c.smtp_port), ..acc1 };
    let n2 = f3 + ","@ + f4 + ","@ + f5 + "\n"@ + "}"@;
    assert(rest2 =~= Seq::<char>::empty() + ","@ + n2);
    lemma_expect_tok_cat(Seq::<char>::empty(), ","@, n2);

    // third member: email_address
    let rest3 = ","@ + f4 + ","@ + f5 + "\n"@ + "}"@;
    assert(n2 =~= f3 + rest3);
    lemma_member_email(c.email_address, rest3, acc2, (fuel - 3) as nat);
    let acc3 = PartialConfig { email_address: Some(c.email_address), ..acc2 };
    let n3 = f4 + ","@ + f5 + "\n"@ + "}"@;
    assert(rest3 =~= Seq::<char>::empty() + ","@ + n3);
    lemma_expect_tok_cat(Seq::<char>::empty(), ","@, n3);

    // fourth member: password
    let rest4 = ","@ + f5 + "\n"@ + "}"@;
    assert(n3 =~= f4 + rest4);
    lemma_member_password(c.password, rest4, acc3, (fuel - 4) as nat);
    let acc4 = PartialConfig { password: Some(c.password), ..acc3 };
    let n4 = f5 + "\n"@ + "}"@;
    assert(rest4 =~= Seq::<char>::empty() + ","@ + n4);
    lemma_expect_tok_cat(Seq::<char>::empty(), ","@, n4);

    // fifth member: sender_name
    let rest5 = "\n"@ + "}"@;
    assert(n4 =~= f5 + rest5);
    lemma_member_sender(c.sender_name, rest5, acc4, (fuel - 5) as nat);
    let acc5 = PartialConfig { sender_name: Some(c.sender_name), ..acc4 };
    // after the last member: no comma, the closing brace, nothing else
    assert(rest5 =~= "\n"@ + ("}"@));
    lemma_skip_ws_all("\n"@, "}"@);
    assert(skip_ws("}"@) == "}"@);
    assert(expect("}"@, ","@) is None) by {
        assert("}"@[0] == '}' && ","@[0] == ',');
        assert("}"@.take(1)[0] == '}');
    }
    assert(expect_tok(rest5, ","@) is None);
    assert(rest5 =~= "\n"@ + "}"@ + Seq::<char>::empty());
    lemma_expect_tok_cat("\n"@, "}"@, Seq::<char>::empty());

    assert(fuel >= 6);
    assert(parse_members(n4, acc4, (fuel - 4) as nat) == Some((acc5, Seq::<char>::empty())));
    assert(parse_members(n3, acc3, (fuel - 3) as nat) == Some((acc5, Seq::<char>::empty())));
    assert(parse_members(n2, acc2, (fuel - 2) as nat) == Some((acc5, Seq::<char>::empty())));
    assert(parse_members(n1, acc1, (fuel - 1) as nat) == Some((acc5, Seq::<char>::empty())));
    assert(parse_members(r1, acc0, fuel) == Some((acc5, Seq::<char>::empty())));
    let m = parse_config(s)->Some_0;
    assert(m =~= c);
}

// ---------------------------------------------------------------------------
// Parsing, executable. The helpers walk a char vector with an index and are
// specified against the combinators above on the remaining suffix.
// ---------------------------------------------------------------------------
/// Relies on `char::from_u32`: it answers `Some` exactly for Unicode scalar
/// values (everything up to 0x10FFFF except the surrogate range), and the
/// character it returns has exactly that code point.
pub assume_specification [ char::from_u32 ](v: u32) -> (r: Option<char>)
    ensures
        r is Some <==> (v < 0xD800 || (0xE000 <= v && v <= 0x10FFFF)),
        r matches Some(c) ==> c as u32 == v,
;

/// Advances past leading whitespace.
#[verifier::loop_isolation(false)]
fn skip_ws_at(cs: &Vec<char>, p: usize) -> (q: usize)
    requires
        p <= cs@.len(),
    ensures
        p <= q <= cs@.len(),
        cs@.skip(q as int) == skip_ws(cs@.skip(p as int)),
{
    let mut q: usize = p;
    while q < cs.len() && is_json_ws_char(cs[q])
        invariant
            p <= q <= cs@.len(),
            skip_ws(cs@.skip(q as int)) == skip_ws(cs@.skip(p as int)),
        decreases cs@.len() - q,
    {
        proof {
            assert(cs@.skip(q as int).drop_first() =~= cs@.skip(q as int + 1));
        }
        q += 1;
    }
    proof {
        if q < cs@.len() {
            assert(cs@.skip(q as int)[0] == cs@[q as int]);
        }
        assert(skip_ws(cs@.skip(q as int)) == cs@.skip(q as int));
    }
    q
}

/// Consumes whitespace and then the literal `lit`, if present.
#[verifier::loop_isolation(false)]
fn expect_tok_at(cs: &Vec<char>, p: usize, lit: &str) -> (r: Option<usize>)
    requires
        p <= cs@.len(),
    ensures
        match r {
            Some(q) => p + lit@.len() <= q <= cs@.len() && expect_tok(cs@.skip(p as int), lit@)
                == Some(cs@.skip(q as int)),
            None => expect_tok(cs@.skip(p as int), lit@) is None,
        },
{
    let q: usize = skip_ws_at(cs, p);
    let lv = chars_vec(lit);
    let ghost t = cs@.skip(q as int);
    if cs.len() - q < lv.len() {
        return None;
    }
    let mut k: usize = 0;
    while k < lv.len()
        invariant
            k <= lv@.len(),
            lv@ == lit@,
            q + lv@.len() <= cs@.len(),
            t == cs@.skip(q as int),
            forall|j: int| 0 <= j < k ==> t[j] == lv@[j],
        decreases lv@.len() - k,
    {
        if cs[q + k] != lv[k] {
            proof {
                assert(t[k as int] == cs@[q as int + k as int]);
                assert(t.take(lv@.len() as int)[k as int] != lit@[k as int]);
            }
            return None;
        }
        proof {
            assert(t[k as int] == cs@[q as int + k as int]);
        }
        k += 1;
    }
    proof {
        assert(t.take(lit@.len() as int) =~= lit@);
        assert(t.skip(lit@.len() as int) =~= cs@.skip(q as int + lit@.len() as int));
    }
    Some(q + lv.len())
}

/// Reads a string value after its opening quote.
#[verifier::loop_isolation(false)]
fn parse_jstring_at(cs: &Vec<char>, p: usize) -> (r: Option<(Vec<char>, usize)>)
    requires
        p <= cs@.len(),
    ensures
        match r {
            Some(vq) => p < vq.1 <= cs@.len() && parse_jstring(cs@.skip(p as int)) == Some(
                (vq.0@, cs@.skip(vq.1 as int)),
            ),
            None => parse_jstring(cs@.skip(p as int)) is None,
        },
{
    let mut acc: Vec<char> = Vec::new();
    let mut q: usize = p;
    loop
        invariant
            p <= q <= cs@.len(),
            parse_jstring(cs@.skip(p as int)) == (match parse_jstring(cs@.skip(q as int)) {
                Some(vr) => Some::<(Seq<char>, Seq<char>)>((acc@ + vr.0, vr.1)),
                None => None::<(Seq<char>, Seq<char>)>,
            }),
        decreases cs@.len() - q,
    {
        let ghost s = cs@.skip(q as int);
        if q == cs.len() {
            return None;
        }
        proof {
            assert(s[0] == cs@[q as int]);
            assert(s.drop_first() =~= cs@.skip(q as int + 1));
        }
        let c = cs[q];
        if c == '"' {
            proof {
                assert(acc@ + Seq::<char>::empty() =~= acc@);
            }
            return Some((acc, q + 1));
        } else if c == '\\' {
            if cs.len() - q < 2 {
                return None;
            }
            let e = cs[q + 1];
            proof {
                assert(s[1] == cs@[q as int + 1]);
                assert(s.skip(2) =~= cs@.skip(q as int + 2));
            }
            if e == '"' || e == '\\' || e == '/' || e == 'n' || e == 'r' || e == 't' || e == 'b'
                || e == 'f' {
                let u: char = if e == 'n' {
                    '\n'
                } else if e == 'r' {
                    '\r'
                } else if e == 't' {
                    '\t'
                } else if e == 'b' {
                    '\u{8}'
                } else if e == 'f' {
                    '\u{c}'
                } else {
                    e
                };
                let ghost acc0 = acc@;
                acc.push(u);
                proof {
                    lemma_prepend_assoc(acc0, unescape_char(s[1]));
                }
                q += 2;
            } else if e == 'u' {
                if cs.len() - q < 6 {
                    return None;
                }
                proof {
                    assert(s[2] == cs@[q as int + 2]);
                    assert(s[3] == cs@[q as int + 3]);
                    assert(s[4] == cs@[q as int + 4]);
                    assert(s[5] == cs@[q as int + 5]);
                    assert(s.skip(6) =~= cs@.skip(q as int + 6));
                }
                let h2 = hex_val_exec(cs[q + 2]);
                let h3 = hex_val_exec(cs[q + 3]);
                let h4 = hex_val_exec(cs[q + 4]);
                let h5 = hex_val_exec(cs[q + 5]);
                match (h2, h3, h4, h5) {
                    (Some(d2), Some(d3), Some(d4), Some(d5)) => {
                        let code: u32 = (d2 as u32) * 4096 + (d3 as u32) * 256 + (d4 as u32) * 16
                            + (d5 as u32);
                        if code < 0xD800 || code >= 0xE000 {
                            let decoded = char::from_u32(code).unwrap();
                            let ghost acc0 = acc@;
                            acc.push(decoded);
                            proof {
                                vstd::utf8::char_u32_cast(decoded, code);
                                lemma_prepend_assoc(acc0, ((code as int as u32) as char));
                            }
                            q += 6;
                        } else {
                            return None;
                        }
                    },
                    _ => {
                        return None;
                    },
                }
            } else {
                return None;
            }
        } else if (c as u32) < 32 {
            return None;
        } else {
            let ghost acc0 = acc@;
            acc.push(c);
            proof {
                lemma_prepend_assoc(acc0, s[0]);
            }
            q += 1;
        }
    }
}

/// Pushing onto the accumulator agrees with prepending to what follows.
proof fn lemma_prepend_assoc(acc: Seq<char>, c: char)
    ensures
        forall|v: Seq<char>| (acc.push(c) + v) =~= (acc + (seq![c] + v)),
{
    assert forall|v: Seq<char>| (acc.push(c) + v) =~= (acc + (seq![c] + v)) by {
        assert((acc.push(c) + v).len() == (acc + (seq![c] + v)).len());
    }
}

/// The value of one hex digit character.
fn hex_val_exec(c: char) -> (r: Option<u8>)
    ensures
        match r {
            Some(d) => is_hex(c) && d as int == hex_val(c) && d < 16,
            None => !is_hex(c),
        },
{
    let u: u32 = c as u32;
    if 48 <= u && u <= 57 {
        Some((u - 48) as u8)
    } else if 97 <= u && u <= 102 {
        Some((u - 87) as u8)
    } else if 65 <= u && u <= 70 {
        Some((u - 55) as u8)
    } else {
        None
    }
}

fn is_digit_exec(c: char) -> (r: bool)
    ensures
        r == is_digit(c),
{
    let u: u32 = c as u32;
    48 <= u && u <= 57
}

/// Reads a port number: whitespace, then digits without a leading zero, at
/// most 65535.
#[verifier::loop_isolation(false)]
fn parse_port_at(cs: &Vec<char>, p: usize) -> (r: Option<(u16, usize)>)
    requires
        p <= cs@.len(),
    ensures
        match r {
            Some(vq) => p < vq.1 <= cs@.len() && parse_port(cs@.skip(p as int)) == Some(
                (vq.0, cs@.skip(vq.1 as int)),
            ),
            None => parse_port(cs@.skip(p as int)) is None,
        },
{
    let q0: usize = skip_ws_at(cs, p);
    if q0 == cs.len() || !is_digit_exec(cs[q0]) {
        proof {
            if q0 < cs@.len() {
                assert(cs@.skip(q0 as int)[0] == cs@[q0 as int]);
            }
        }
        return None;
    }
    proof {
        assert(cs@.skip(q0 as int)[0] == cs@[q0 as int]);
    }
    if cs[q0] == '0' {
        let ghost t = cs@.skip(q0 as int);
        proof {
            if q0 + 1 < cs@.len() {
                assert(t[1] == cs@[q0 as int + 1]);
            }
            assert(t.drop_first() =~= cs@.skip(q0 as int + 1));
        }
        if q0 + 1 < cs.len() && is_digit_exec(cs[q0 + 1]) {
            return None;
        }
        return Some((0u16, q0 + 1));
    }
    let mut q: usize = q0;
    let mut acc: u32 = 0;
    while q < cs.len() && is_digit_exec(cs[q])
        invariant
            q0 <= q <= cs@.len(),
            acc <= 65535,
            parse_digits(cs@.skip(q0 as int), 0) == parse_digits(cs@.skip(q as int), acc as int),
        decreases cs@.len() - q,
    {
        let ghost s = cs@.skip(q as int);
        proof {
            assert(s[0] == cs@[q as int]);
            assert(s.drop_first() =~= cs@.skip(q as int + 1));
        }
        let d: u32 = (cs[q] as u32) - 48;
        let a2: u32 = acc * 10 + d;
        if a2 > 65535 {
            return None;
        }
        acc = a2;
        q += 1;
    }
    proof {
        let s = cs@.skip(q as int);
        if q < cs@.len() {
            assert(s[0] == cs@[q as int]);
        }
        assert(parse_digits(s, acc as int) == Some((acc as int, s)));
        assert(q > q0);
    }
    Some((acc as u16, q))
}

/// Reads a quoted string token (whitespace, quote, value).
fn parse_quoted_at(cs: &Vec<char>, p: usize) -> (r: Option<(Vec<char>, usize)>)
    requires
        p <= cs@.len(),
    ensures
        match r {
            Some(vq) => p + 2 <= vq.1 <= cs@.len() && parse_quoted(cs@.skip(p as int)) == Some(
                (vq.0@, cs@.skip(vq.1 as int)),
            ),
            None => parse_quoted(cs@.skip(p as int)) is None,
        },
{
    proof {
        reveal_strlit("\"");
    }
    let s1: usize = match expect_tok_at(cs, p, "\"") {
        Some(q) => q,
        None => {
            return None;
        },
    };
    parse_jstring_at(cs, s1)
}

/// Whether the decoded key equals a field name.
#[verifier::loop_isolation(false)]
fn key_eq(key: &Vec<char>, name: &str) -> (b: bool)
    ensures
        b == (key@ == name@),
{
    let nv = chars_vec(name);
    if key.len() != nv.len() {
        return false;
    }
    let mut i: usize = 0;
    while i < nv.len()
        invariant
            i <= nv@.len(),
            nv@ == name@,
            key@.len() == nv@.len(),
            forall|j: int| 0 <= j < i ==> key@[j] == nv@[j],
        decreases nv@.len() - i,
    {
        if key[i] != nv[i] {
            return false;
        }
        i += 1;
    }
    proof {
        assert(key@ =~= name@);
    }
    true
}

/// Advances past a run of digits.
#[verifier::loop_isolation(false)]
fn skip_digits_at(cs: &Vec<char>, p: usize) -> (q: usize)
    requires
        p <= cs@.len(),
    ensures
        p <= q <= cs@.len(),
        cs@.skip(q as int) == skip_digits(cs@.skip(p as int)),
{
    let mut q: usize = p;
    while q < cs.len() && is_digit_exec(cs[q])
        invariant
            p <= q <= cs@.len(),
            skip_digits(cs@.skip(q as int)) == skip_digits(cs@.skip(p as int)),
        decreases cs@.len() - q,
    {
        proof {
            assert(cs@.skip(q as int).drop_first() =~= cs@.skip(q as int + 1));
        }
        q += 1;
    }
    proof {
        if q < cs@.len() {
            assert(cs@.skip(q as int)[0] == cs@[q as int]);
        }
        assert(skip_digits(cs@.skip(q as int)) == cs@.skip(q as int));
    }
    q
}

/// Reads past one JSON number (whitespace already consumed by the caller).
#[verifier::loop_isolation(false)]
fn skip_number_at(cs: &Vec<char>, p: usize) -> (r: Option<usize>)
    requires
        p <= cs@.len(),
    ensures
        match r {
            Some(q) => p < q <= cs@.len() && skip_number(cs@.skip(p as int)) == Some(
                cs@.skip(q as int),
            ),
            None => skip_number(cs@.skip(p as int)) is None,
        },
{
    let ghost s = cs@.skip(p as int);
    let mut q: usize = p;
    if q < cs.len() && cs[q] == '-' {
        proof {
            assert(s[0] == cs@[q as int]);
            assert(s.drop_first() =~= cs@.skip(q as int + 1));
        }
        q += 1;
    } else {
        proof {
            if q < cs@.len() {
                assert(s[0] == cs@[q as int]);
            }
        }
    }
    let ghost t1 = cs@.skip(q as int);
    if q == cs.len() || !is_digit_exec(cs[q]) {
        proof {
            if q < cs@.len() {
                assert(t1[0] == cs@[q as int]);
            }
        }
        return None;
    }
    proof {
        assert(t1[0] == cs@[q as int]);
    }
    let q2: usize = if cs[q] == '0' {
        proof {
            assert(t1.drop_first() =~= cs@.skip(q as int + 1));
        }
        q + 1
    } else {
        skip_digits_at(cs, q)
    };
    let ghost t2 = cs@.skip(q2 as int);
    if q2 < cs.len() && is_digit_exec(cs[q2]) {
        proof {
            assert(t2[0] == cs@[q2 as int]);
        }
        return None;
    }
    proof {
        if q2 < cs@.len() {
            assert(t2[0] == cs@[q2 as int]);
        }
    }
    // fraction
    let q3: usize = if q2 < cs.len() && cs[q2] == '.' {
        if q2 + 1 < cs.len() && is_digit_exec(cs[q2 + 1]) {
            proof {
                assert(t2[1] == cs@[q2 as int + 1]);
                assert(t2.drop_first() =~= cs@.skip(q2 as int + 1));
            }
            skip_digits_at(cs, q2 + 1)
        } else {
            proof {
                if q2 + 1 < cs@.len() {
                    assert(t2[1] == cs@[q2 as int + 1]);
                }
            }
            return None;
        }
    } else {
        q2
    };
    let ghost t3 = cs@.skip(q3 as int);
    // exponent
    if q3 < cs.len() && (cs[q3] == 'e' || cs[q3] == 'E') {
        proof {
            assert(t3[0] == cs@[q3 as int]);
        }
        let q4: usize = if q3 + 1 < cs.len() && (cs[q3 + 1] == '+' || cs[q3 + 1] == '-') {
            proof {
                assert(t3[1] == cs@[q3 as int + 1]);
                assert(t3.skip(2) =~= cs@.skip(q3 as int + 2));
            }
            q3 + 2
        } else {
            proof {
                if q3 + 1 < cs@.len() {
                    assert(t3[1] == cs@[q3 as int + 1]);
                }
                assert(t3.drop_first() =~= cs@.skip(q3 as int + 1));
            }
            q3 + 1
        };
        if q4 < cs.len() && is_digit_exec(cs[q4]) {
            proof {
                assert(cs@.skip(q4 as int)[0] == cs@[q4 as int]);
            }
            Some(skip_digits_at(cs, q4))
        } else {
            proof {
                if q4 < cs@.len() {
                    assert(cs@.skip(q4 as int)[0] == cs@[q4 as int]);
                }
            }
            None
        }
    } else {
        proof {
            if q3 < cs@.len() {
                assert(t3[0] == cs@[q3 as int]);
            }
        }
        Some(q3)
    }
}

/// Reads past one JSON value of any shape.
fn skip_value_at(cs: &Vec<char>, p: usize, Ghost(fuel): Ghost<nat>) -> (r: Option<usize>)
    requires
        p <= cs@.len(),
        fuel >= cs@.len() - p + 1,
    ensures
        match r {
            Some(q) => p < q <= cs@.len() && skip_value(cs@.skip(p as int), fuel) == Some(
                cs@.skip(q as int),
            ),
            None => skip_value(cs@.skip(p as int), fuel) is None,
        },
    decreases fuel, 0int,
{
    proof {
        reveal_strlit("true");
        reveal_strlit("false");
        reveal_strlit("null");
    }
    let qw: usize = skip_ws_at(cs, p);
    let ghost t = cs@.skip(qw as int);
    if qw == cs.len() {
        return None;
    }
    proof {
        assert(t[0] == cs@[qw as int]);
        assert(t.drop_first() =~= cs@.skip(qw as int + 1));
    }
    let c = cs[qw];
    if c == '"' {
        match parse_jstring_at(cs, qw + 1) {
            Some((_v, q)) => Some(q),
            None => None,
        }
    } else if c == 't' {
        expect_lit_here(cs, qw, "true")
    } else if c == 'f' {
        expect_lit_here(cs, qw, "false")
    } else if c == 'n' {
        expect_lit_here(cs, qw, "null")
    } else if c == '{' {
        skip_members_at(cs, qw + 1, true, Ghost((fuel - 1) as nat))
    } else if c == '[' {
        skip_elements_at(cs, qw + 1, true, Ghost((fuel - 1) as nat))
    } else if c == '-' || is_digit_exec(c) {
        skip_number_at(cs, qw)
    } else {
        None
    }
}

/// Consumes the literal `lit` right here, with no whitespace before it.
#[verifier::loop_isolation(false)]
fn expect_lit_here(cs: &Vec<char>, p: usize, lit: &str) -> (r: Option<usize>)
    requires
        p <= cs@.len(),
    ensures
        match r {
            Some(q) => p + lit@.len() <= q <= cs@.len() && expect(cs@.skip(p as int), lit@) == Some(
                cs@.skip(q as int),
            ),
            None => expect(cs@.skip(p as int), lit@) is None,
        },
{
    let lv = chars_vec(lit);
    let ghost t = cs@.skip(p as int);
    if cs.len() - p < lv.len() {
        return None;
    }
    let mut k: usize = 0;
    while k < lv.len()
        invariant
            k <= lv@.len(),
            lv@ == lit@,
            p + lv@.len() <= cs@.len(),
            t == cs@.skip(p as int),
            forall|j: int| 0 <= j < k ==> t[j] == lv@[j],
        decreases lv@.len() - k,
    {
        if cs[p + k] != lv[k] {
            proof {
                assert(t[k as int] == cs@[p as int + k as int]);
                assert(t.take(lv@.len() as int)[k as int] != lit@[k as int]);
            }
            return None;
        }
        proof {
            assert(t[k as int] == cs@[p as int + k as int]);
        }
        k += 1;
    }
    proof {
        assert(t.take(lit@.len() as int) =~= lit@);
        assert(t.skip(lit@.len() as int) =~= cs@.skip(p as int + lit@.len() as int));
    }
    Some(p + lv.len())
}

/// Reads past the members of an ignored object.
fn skip_members_at(cs: &Vec<char>, p: usize, first: bool, Ghost(fuel): Ghost<nat>) -> (r: Option<
    usize,
>)
    requires
        p <= cs@.len(),
        fuel >= cs@.len() - p + 1,
    ensures
        match r {
            Some(q) => p < q <= cs@.len() && skip_members(cs@.skip(p as int), first, fuel) == Some(
                cs@.skip(q as int),
            ),
            None => skip_members(cs@.skip(p as int), first, fuel) is None,
        },
    decreases fuel, 1int,
{
    proof {
        reveal_strlit("}");
        reveal_strlit(":");
        reveal_strlit(",");
    }
    if first {
        match expect_tok_at(cs, p, "}") {
            Some(q) => {
                return Some(q);
            },
            None => {},
        }
    }
    let (_key, k1) = match parse_quoted_at(cs, p) {
        Some(vq) => vq,
        None => {
            return None;
        },
    };
    let s2: usize = match expect_tok_at(cs, k1, ":") {
        Some(q) => q,
        None => {
            return None;
        },
    };
    let v: usize = match skip_value_at(cs, s2, Ghost(fuel)) {
        Some(q) => q,
        None => {
            return None;
        },
    };
    match expect_tok_at(cs, v, ",") {
        Some(r2) => skip_members_at(cs, r2, false, Ghost((fuel - 1) as nat)),
        None => expect_tok_at(cs, v, "}"),
    }
}

/// Reads past the elements of an ignored array.
fn skip_elements_at(cs: &Vec<char>, p: usize, first: bool, Ghost(fuel): Ghost<nat>) -> (r: Option<
    usize,
>)
    requires
        p <= cs@.len(),
        fuel >= cs@.len() - p + 1,
    ensures
        match r {
            Some(q) => p < q <= cs@.len() && skip_elements(cs@.skip(p as int), first, fuel) == Some(
                cs@.skip(q as int),
            ),
            None => skip_elements(cs@.skip(p as int), first, fuel) is None,
        },
    decreases fuel, 1int,
{
    proof {
        reveal_strlit("]");
        reveal_strlit(",");
    }
    if first {
        match expect_tok_at(cs, p, "]") {
            Some(q) => {
                return Some(q);
            },
            None => {},
        }
    }
    let v: usize = match skip_value_at(cs, p, Ghost(fuel)) {
        Some(q) => q,
        None => {
            return None;
        },
    };
    match expect_tok_at(cs, v, ",") {
        Some(r2) => skip_elements_at(cs, r2, false, Ghost((fuel - 1) as nat)),
        None => expect_tok_at(cs, v, "]"),
    }
}

/// The fields collected so far, as read.
struct FieldsAcc {
    smtp_server: Option<String>,
    smtp_port: Option<u16>,
    email_address: Option<String>,
    password: Option<String>,
    sender_name: Option<String>,
}

impl View for FieldsAcc {
    type V = PartialConfig;

    closed spec fn view(&self) -> PartialConfig {
        PartialConfig {
            smtp_server: match self.smtp_server {
                Some(s) => Some(s@),
                None => None,
            },
            smtp_port: self.smtp_port,
            email_address: match self.email_address {
                Some(s) => Some(s@),
                None => None,
            },
            password: match self.password {
                Some(s) => Some(s@),
                None => None,
            },
            sender_name: match self.sender_name {
                Some(s) => Some(s@),
                None => None,
            },
        }
    }
}

/// Reads one member and folds it into the accumulator.
fn parse_member_at(cs: &Vec<char>, p: usize, acc: FieldsAcc, Ghost(fuel): Ghost<nat>) -> (r:
    Option<(FieldsAcc, usize)>)
    requires
        p <= cs@.len(),
        fuel >= cs@.len() - p,
    ensures
        match r {
            Some(aq) => p < aq.1 <= cs@.len() && parse_member(cs@.skip(p as int), acc@, fuel)
                == Some((aq.0@, cs@.skip(aq.1 as int))),
            None => parse_member(cs@.skip(p as int), acc@, fuel) is None,
        },
{
    proof {
        reveal(parse_member);
        reveal_strlit(":");
        reveal_strlit("smtp_server");
        reveal_strlit("smtp_port");
        reveal_strlit("email_address");
        reveal_strlit("password");
        reveal_strlit("sender_name");
    }
    let (key, k1) = match parse_quoted_at(cs, p) {
        Some(vq) => vq,
        None => {
            return None;
        },
    };
    let s2: usize = match expect_tok_at(cs, k1, ":") {
        Some(q) => q,
        None => {
            return None;
        },
    };
    let mut acc = acc;
    if key_eq(&key, "smtp_server") {
        if acc.smtp_server.is_some() {
            return None;
        }
        match parse_quoted_at(cs, s2) {
            Some((v, q)) => {
                acc.smtp_server = Some(string_from_chars(&v));
                Some((acc, q))
            },
            None => None,
        }
    } else if key_eq(&key, "smtp_port") {
        if acc.smtp_port.is_some() {
            return None;
        }
        match parse_port_at(cs, s2) {
            Some((n, q)) => {
                acc.smtp_port = Some(n);
                Some((acc, q))
            },
            None => None,
        }
    } else if key_eq(&key, "email_address") {
        if acc.email_address.is_some() {
            return None;
        }
        match parse_quoted_at(cs, s2) {
            Some((v, q)) => {
                acc.email_address = Some(string_from_chars(&v));
                Some((acc, q))
            },
            None => None,
        }
    } else if key_eq(&key, "password") {
        if acc.password.is_some() {
            return None;
        }
        match parse_quoted_at(cs, s2) {
            Some((v, q)) => {
                acc.password = Some(string_from_chars(&v));
                Some((acc, q))
            },
            None => None,
        }
    } else if key_eq(&key, "sender_name") {
        if acc.sender_name.is_some() {
            return None;
        }
        match parse_quoted_at(cs, s2) {
            Some((v, q)) => {
                acc.sender_name = Some(string_from_chars(&v));
                Some((acc, q))
            },
            None => None,
        }
    } else {
        match skip_value_at(cs, s2, Ghost(fuel)) {
            Some(q) => Some((acc, q)),
            None => None,
        }
    }
}

/// Reads the members of the configuration object.
fn parse_members_at(cs: &Vec<char>, p: usize, acc: FieldsAcc, Ghost(fuel): Ghost<nat>) -> (r:
    Option<(FieldsAcc, usize)>)
    requires
        p <= cs@.len(),
        fuel >= cs@.len() - p + 1,
    ensures
        match r {
            Some(aq) => aq.1 <= cs@.len() && parse_members(cs@.skip(p as int), acc@, fuel) == Some(
                (aq.0@, cs@.skip(aq.1 as int)),
            ),
            None => parse_members(cs@.skip(p as int), acc@, fuel) is None,
        },
    decreases fuel,
{
    proof {
        reveal_strlit(",");
        reveal_strlit("}");
    }
    let (acc2, r1) = match parse_member_at(cs, p, acc, Ghost((fuel - 1) as nat)) {
        Some(m) => m,
        None => {
            return None;
        },
    };
    match expect_tok_at(cs, r1, ",") {
        Some(r2) => parse_members_at(cs, r2, acc2, Ghost((fuel - 1) as nat)),
        None => match expect_tok_at(cs, r1, "}") {
            Some(r3) => Some((acc2, r3)),
            None => None,
        },
    }
}

impl MailConfig {
    /// Decodes a configuration file's text; any text the grammar refuses is
    /// `ParseFailed`.
    pub fn parse_saved(text: &str) -> (r: Result<MailConfig, ConfigError>)
        ensures
            match parse_config(text@) {
                Some(m) => r matches Ok(c) && c@ == m,
                None => r == Err::<MailConfig, ConfigError>(ConfigError::ParseFailed),
            },
    {
        let cs = chars_vec(text);
        proof {
            assert(cs@.skip(0) =~= text@);
        }
        let s1: usize = match expect_tok_at(&cs, 0, "{") {
            Some(q) => q,
            None => {
                return Err(ConfigError::ParseFailed);
            },
        };
        let acc = FieldsAcc {
            smtp_server: None,
            smtp_port: None,
            email_address: None,
            password: None,
            sender_name: None,
        };
        proof {
            assert(acc@ =~= no_fields());
        }
        let (a, q) = match parse_members_at(&cs, s1, acc, Ghost(text@.len() + 1)) {
            Some(aq) => aq,
            None => {
                return Err(ConfigError::ParseFailed);
            },
        };
        let e: usize = skip_ws_at(&cs, q);
        if e != cs.len() {
            proof {
                assert(skip_ws(cs@.skip(q as int)).len() > 0);
            }
            return Err(ConfigError::ParseFailed);
        }
        proof {
            assert(skip_ws(cs@.skip(q as int)).len() == 0);
        }
        match (a.smtp_server, a.smtp_port, a.email_address, a.password, a.sender_name) {
            (Some(server), Some(port), Some(email), Some(password), Some(sender)) => Ok(
                MailConfig {
                    smtp_server: server,
                    smtp_port: port,
                    email_address: email,
                    password,
                    sender_name: sender,
                },
            ),
            _ => Err(ConfigError::ParseFailed),
        }
    }

    /// What loading yields for given file content: absent file means the
    /// defaults, present content is decoded.
    pub fn load_from_content(content: Option<&str>) -> (r: Result<MailConfig, ConfigError>)
        ensures
            match content {
                None => r matches Ok(c) && c@ == crate::config::default_model(),
                Some(t) => match parse_config(t@) {
                    Some(m) => r matches Ok(c) && c@ == m,
                    None => r == Err::<MailConfig, ConfigError>(ConfigError::ParseFailed),
                },
            },
    {
        match content {
            None => Ok(MailConfig::default()),
            Some(t) => MailConfig::parse_saved(t),
        }
    }
}

// ---------------------------------------------------------------------------
// Rendering, executable.
// ---------------------------------------------------------------------------
proof fn lemma_escape_push(s: Seq<char>, c: char)
    ensures
        escape(s.push(c)) == escape(s) + escape_char(c),
    decreases s.len(),
{
    if s.len() == 0 {
        assert(s.push(c)[0] == c);
        assert(s.push(c).drop_first() =~= Seq::<char>::empty());
        assert(escape(s.push(c)) == escape_char(c) + escape(Seq::<char>::empty()));
        assert(escape_char(c) + Seq::<char>::empty() =~= escape_char(c));
        assert(escape(s) + escape_char(c) =~= escape_char(c));
    } else {
        assert(s.push(c).drop_first() =~= s.drop_first().push(c));
        lemma_escape_push(s.drop_first(), c);
        assert(escape_char(s[0]) + (escape(s.drop_first()) + escape_char(c)) =~= (escape_char(s[0])
            + escape(s.drop_first())) + escape_char(c));
    }
}

/// Appends the characters of `lit` to `out`.
fn push_str_chars(out: &mut Vec<char>, lit: &str)
    ensures
        final(out)@ == old(out)@ + lit@,
{
    let v = chars_vec(lit);
    let ghost base = out@;
    let mut i: usize = 0;
    while i < v.len()
        invariant
            i <= v@.len(),
            v@ == lit@,
            out@ == base + v@.take(i as int),
        decreases v@.len() - i,
    {
        out.push(v[i]);
        proof {
            assert(base + v@.take(i as int) + seq![v@[i as int]] =~= base + v@.take(i as int + 1));
        }
        i += 1;
    }
    proof {
        assert(base + v@.take(v@.len() as int) =~= base + lit@);
    }
}

fn push_hex_digit(out: &mut Vec<char>, d: u32)
    requires
        d < 16,
    ensures
        final(out)@ == old(out)@.push(hex_digit(d as int)),
{
    let c: char = if d == 0 {
        '0'
    } else if d == 1 {
        '1'
    } else if d == 2 {
        '2'
    } else if d == 3 {
        '3'
    } else if d == 4 {
        '4'
    } else if d == 5 {
        '5'
    } else if d == 6 {
        '6'
    } else if d == 7 {
        '7'
    } else if d == 8 {
        '8'
    } else if d == 9 {
        '9'
    } else if d == 10 {
        'a'
    } else if d == 11 {
        'b'
    } else if d == 12 {
        'c'
    } else if d == 13 {
        'd'
    } else if d == 14 {
        'e'
    } else {
        'f'
    };
    out.push(c);
}

/// Appends `escape_char(c)` to `out`.
fn push_escape_char(out: &mut Vec<char>, c: char)
    ensures
        final(out)@ == old(out)@ + escape_char(c),
{
    let ghost base = out@;
    if c == '"' {
        out.push('\\');
        out.push('"');
    } else if c == '\\' {
        out.push('\\');
        out.push('\\');
    } else if c == '\n' {
        out.push('\\');
        out.push('n');
    } else if c == '\r' {
        out.push('\\');
        out.push('r');
    } else if c == '\t' {
        out.push('\\');
        out.push('t');
    } else if c == '\u{8}' {
        out.push('\\');
        out.push('b');
    } else if c == '\u{c}' {
        out.push('\\');
        out.push('f');
    } else if (c as u32) < 32 {
        out.push('\\');
        out.push('u');
        out.push('0');
        out.push('0');
        push_hex_digit(out, (c as u32) / 16);
        push_hex_digit(out, (c as u32) % 16);
    } else {
        out.push(c);
    }
    proof {
        assert(out@ =~= base + escape_char(c));
    }
}

/// Appends the escaped form of `val` to `out`.
fn push_escaped(out: &mut Vec<char>, val: &str)
    ensures
        final(out)@ == old(out)@ + escape(val@),
{
    let v = chars_vec(val);
    let ghost base = out@;
    let mut i: usize = 0;
    while i < v.len()
        invariant
            i <= v@.len(),
            v@ == val@,
            out@ == base + escape(v@.take(i as int)),
        decreases v@.len() - i,
    {
        push_escape_char(out, v[i]);
        proof {
            assert(v@.take(i as int).push(v@[i as int]) =~= v@.take(i as int + 1));
            lemma_escape_push(v@.take(i as int), v@[i as int]);
            assert(base + escape(v@.take(i as int)) + escape_char(v@[i as int]) =~= base + (escape(
                v@.take(i as int),
            ) + escape_char(v@[i as int])));
        }
        i += 1;
    }
    proof {
        assert(v@.take(v@.len() as int) =~= val@);
    }
}

/// Appends the decimal digits of `n` to `out`.
fn push_digits(out: &mut Vec<char>, n: u16)
    ensures
        final(out)@ == old(out)@ + digits_of(n as int),
    decreases n,
{
    if n < 10 {
        let d: u32 = n as u32;
        let ghost base = out@;
        push_hex_digit(out, d);
        proof {
            assert(hex_digit(n as int) == digit_char(n as int));
            assert(base.push(digit_char(n as int)) =~= base + digits_of(n as int));
        }
    } else {
        let ghost base = out@;
        push_digits(out, n / 10);
        let d: u32 = (n % 10) as u32;
        push_hex_digit(out, d);
        proof {
            assert(hex_digit((n % 10) as int) == digit_char((n % 10) as int));
            assert((base + digits_of((n / 10) as int)).push(digit_char((n % 10) as int)) =~= base
                + digits_of(n as int));
        }
    }
}

/// Appends one rendered string field to `out`.
fn push_sfield(out: &mut Vec<char>, key: &str, val: &str)
    ensures
        final(out)@ == old(out)@ + sfield_text(key@, val@),
{
    push_str_chars(out, "\n  ");
    push_str_chars(out, "\"");
    push_str_chars(out, key);
    push_str_chars(out, "\"");
    push_str_chars(out, ":");
    push_str_chars(out, " ");
    push_str_chars(out, "\"");
    push_escaped(out, val);
    push_str_chars(out, "\"");
}

/// Appends the rendered port field to `out`.
fn push_pfield(out: &mut Vec<char>, n: u16)
    ensures
        final(out)@ == old(out)@ + pfield_text(n),
{
    push_str_chars(out, "\n  ");
    push_str_chars(out, "\"");
    push_str_chars(out, "smtp_port");
    push_str_chars(out, "\"");
    push_str_chars(out, ":");
    push_str_chars(out, " ");
    push_digits(out, n);
}

impl MailConfig {
    /// The configuration file text for this record: the encoder never fails,
    /// so the `SerializeFailed` outcome of the error taxonomy cannot arise
    /// here.
    pub fn save_string(&self) -> (r: String)
        ensures
            r@ == render_config(self@),
            parse_config(r@) == Some(self@),
    {
        proof {
            lemma_render_parse_config(self@);
        }
        let mut out: Vec<char> = Vec::new();
        push_str_chars(&mut out, "{");
        push_sfield(&mut out, "smtp_server", self.smtp_server.as_str());
        push_str_chars(&mut out, ",");
        push_pfield(&mut out, self.smtp_port);
        push_str_chars(&mut out, ",");
        push_sfield(&mut out, "email_address", self.email_address.as_str());
        push_str_chars(&mut out, ",");
        push_sfield(&mut out, "password", self.password.as_str());
        push_str_chars(&mut out, ",");
        push_sfield(&mut out, "sender_name", self.sender_name.as_str());
        push_str_chars(&mut out, "\n");
        push_str_chars(&mut out, "}");
        string_from_chars(&out)
    }
}

} // verus!
