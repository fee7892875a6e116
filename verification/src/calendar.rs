//! The provider's events-endpoint URL, and the parsing of the authorization
//! callback that the local listener receives.

use vstd::prelude::*;
use vstd::string::is_ascii;
use vstd::string::StringSliceAdditionalSpecFns;
use vstd::string::StringExecFns;

use crate::scan::{
    chars_eq, chars_to_string, digit_char_of, hex_digit, hex_val, hex_val_of, next_char,
    next_non_space, next_space, scan_past_spaces, scan_to_char, scan_to_space, subvec,
    to_char_vec,
};

verus! {

// ---------------------------------------------------------------------------
// Percent-encoding and the events-endpoint URL
// ---------------------------------------------------------------------------
/// A character that percent-encoding leaves as it stands: an ASCII
/// alphanumeric or one of `-`, `.`, `_`, `~`.
pub open spec fn is_unreserved(c: char) -> bool {
    ('0' <= c && c <= '9') || ('A' <= c && c <= 'Z') || ('a' <= c && c <= 'z') || c == '-' || c
        == '.' || c == '_' || c == '~'
}

/// The percent-encoding of one ASCII character.
pub open spec fn pct_char(c: char) -> Seq<char>
    recommends
        (c as int) < 128,
{
    if is_unreserved(c) {
        seq![c]
    } else {
        seq!['%', hex_digit((c as int) / 16), hex_digit((c as int) % 16)]
    }
}

/// The percent-encoding of an ASCII string's characters.
pub open spec fn percent_encoded(s: Seq<char>) -> Seq<char>
    decreases s.len(),
{
    if s.len() == 0 {
        Seq::empty()
    } else {
        pct_char(s[0]) + percent_encoded(s.drop_first())
    }
}

/// Relies on urlencoding::encode: it percent-encodes every byte except the
/// ASCII alphanumerics and `-`, `.`, `_`, `~`, using uppercase hexadecimal
/// digits; on ASCII input every byte is one character.
#[verifier::external_body]
fn percent_encode(s: &str) -> (r: String)
    requires
        is_ascii(s),
    ensures
        r@ == percent_encoded(s@),
{
    urlencoding::encode(s).into_owned()
}

/// The provider's events-endpoint URL for one calendar and one time window,
/// with the window's bounds percent-encoded, recurring events expanded and
/// deleted events excluded.
pub open spec fn spec_calendar_url(email: Seq<char>, tmin: Seq<char>, tmax: Seq<char>) -> Seq<
    char,
> {
    "https://www.googleapis.com/calendar/v3/calendars/"@ + email + "/events?timeMin="@
        + percent_encoded(tmin) + "&timeMax="@ + percent_encoded(tmax)
        + "&singleEvents=true&showDeleted=false"@
}

/// The events-endpoint URL for the day's window; the window's bounds are
/// RFC 3339 timestamps and so ASCII.
pub fn calendar_url(email: &str, time_min: &str, time_max: &str) -> (r: String)
    requires
        is_ascii(time_min),
        is_ascii(time_max),
    ensures
        r@ == spec_calendar_url(email@, time_min@, time_max@),
{
    let mut out = String::new();
    out.append("https://www.googleapis.com/calendar/v3/calendars/");
    out.append(email);
    out.append("/events?timeMin=");
    let e_min = percent_encode(time_min);
    out.append(e_min.as_str());
    out.append("&timeMax=");
    let e_max = percent_encode(time_max);
    out.append(e_max.as_str());
    out.append("&singleEvents=true&showDeleted=false");
    proof {
        assert(out@ =~= spec_calendar_url(email@, time_min@, time_max@));
    }
    out
}

// ---------------------------------------------------------------------------
// Percent-decoding and the authorization callback
// ---------------------------------------------------------------------------
/// A percent escape stands at offset `k`: `%` and two hexadecimal digits.
pub open spec fn pct_at(s: Seq<char>, k: int) -> bool {
    &&& 0 <= k
    &&& k + 3 <= s.len()
    &&& s[k] == '%'
    &&& hex_val(s[k + 1]) >= 0
    &&& hex_val(s[k + 2]) >= 0
}

/// The byte value of the percent escape at offset `k`.
pub open spec fn pct_byte(s: Seq<char>, k: int) -> int
    recommends
        pct_at(s, k),
{
    hex_val(s[k + 1]) * 16 + hex_val(s[k + 2])
}

/// A continuation-byte escape at offset `k`.
pub open spec fn cont_at(s: Seq<char>, k: int) -> bool {
    pct_at(s, k) && 0x80 <= pct_byte(s, k) < 0xC0
}

/// The six payload bits of the continuation escape at offset `k`.
pub open spec fn cont_bits(s: Seq<char>, k: int) -> int
    recommends
        cont_at(s, k),
{
    pct_byte(s, k) - 0x80
}

/// The scalar value spelled by the leading escape of `s` together with its
/// continuation escapes, and the number of escapes it spans, when they form
/// a well-formed multi-byte UTF-8 sequence.
pub open spec fn utf8_escape_scalar(s: Seq<char>) -> Option<(int, int)>
    recommends
        pct_at(s, 0),
{
    let b0 = pct_byte(s, 0);
    if 0xC2 <= b0 < 0xE0 && cont_at(s, 3) {
        Some(((b0 - 0xC0) * 0x40 + cont_bits(s, 3), 2))
    } else if 0xE0 <= b0 < 0xF0 && cont_at(s, 3) && cont_at(s, 6) {
        let code = (b0 - 0xE0) * 0x1000 + cont_bits(s, 3) * 0x40 + cont_bits(s, 6);
        if 0x800 <= code && !(0xD800 <= code < 0xE000) {
            Some((code, 3))
        } else {
            None
        }
    } else if 0xF0 <= b0 < 0xF5 && cont_at(s, 3) && cont_at(s, 6) && cont_at(s, 9) {
        let code = (b0 - 0xF0) * 0x40000 + cont_bits(s, 3) * 0x1000 + cont_bits(s, 6) * 0x40
            + cont_bits(s, 9);
        if 0x10000 <= code <= 0x10FFFF {
            Some((code, 4))
        } else {
            None
        }
    } else {
        None
    }
}

/// Percent-decoding of a query component: `+` stands for a space; an escape
/// below 0x80 stands for that character; a lead-byte escape and its
/// continuation escapes are reassembled into the character they encode in
/// UTF-8, a malformed sequence reading as the replacement character; any
/// other character stands for itself.
pub open spec fn pct_decode(s: Seq<char>) -> Seq<char>
    decreases s.len(),
    via pct_decode_decreases
{
    if s.len() == 0 {
        Seq::empty()
    } else if s[0] == '+' {
        seq![' '] + pct_decode(s.drop_first())
    } else if pct_at(s, 0) {
        let b0 = pct_byte(s, 0);
        if b0 < 0x80 {
            seq![((b0 as u32) as char)] + pct_decode(s.skip(3))
        } else {
            match utf8_escape_scalar(s) {
                Some(p) => seq![((p.0 as u32) as char)] + pct_decode(s.skip(3 * p.1)),
                None => seq!['\u{fffd}'] + pct_decode(s.skip(3)),
            }
        }
    } else {
        seq![s[0]] + pct_decode(s.drop_first())
    }
}

#[via_fn]
proof fn pct_decode_decreases(s: Seq<char>) {
    if s.len() != 0 && s[0] != '+' && pct_at(s, 0) && pct_byte(s, 0) >= 0x80 {
        match utf8_escape_scalar(s) {
            Some(p) => {
                if p.1 == 3 {
                    assert(cont_at(s, 6));
                }
                if p.1 == 4 {
                    assert(cont_at(s, 9));
                }
            },
            None => {
            },
        }
    }
}

/// Escape offsets shift with a suffix.
proof fn lemma_pct_shift(v: Seq<char>, i: int, k: int)
    requires
        0 <= i <= v.len(),
        0 <= k,
    ensures
        pct_at(v.skip(i), k) == pct_at(v, i + k),
        pct_at(v, i + k) ==> pct_byte(v.skip(i), k) == pct_byte(v, i + k),
{
    if i + k + 3 <= v.len() {
        assert(v.skip(i)[k] == v[i + k]);
        assert(v.skip(i)[k + 1] == v[i + k + 1]);
        assert(v.skip(i)[k + 2] == v[i + k + 2]);
    }
}

/// The value of the first query pair whose decoded key is `code`, decoded,
/// scanning the pairs that `&` separates from `from` on.
pub open spec fn code_value_from(q: Seq<char>, from: int) -> Option<Seq<char>>
    decreases q.len() - from,
    via code_value_from_decreases
{
    if from < 0 || from >= q.len() {
        None
    } else {
        let amp = next_char(q, from, '&');
        let eqp = next_char(q, from, '=');
        let key = if eqp < amp {
            q.subrange(from, eqp)
        } else {
            q.subrange(from, amp)
        };
        let value = if eqp < amp {
            q.subrange(eqp + 1, amp)
        } else {
            Seq::<char>::empty()
        };
        if pct_decode(key) == "code"@ {
            Some(pct_decode(value))
        } else if amp >= q.len() {
            None
        } else {
            code_value_from(q, amp + 1)
        }
    }
}

#[via_fn]
proof fn code_value_from_decreases(q: Seq<char>, from: int) {
    if 0 <= from < q.len() {
        crate::scan::lemma_next_char_bounds(q, from, '&');
    }
}

/// The authorization code carried by the callback's request line: the
/// second whitespace-separated token is the requested path; the `code`
/// query parameter's decoded value is the code. Absent a second token, a
/// query, or a `code` parameter, there is no code.
pub open spec fn spec_auth_code(s: Seq<char>) -> Option<Seq<char>> {
    let t1 = next_non_space(s, 0);
    let t1e = next_space(s, t1);
    let t2 = next_non_space(s, t1e);
    let t2e = next_space(s, t2);
    if t2 >= s.len() {
        None
    } else {
        let qmark = next_char(s, t2, '?');
        if qmark >= t2e {
            None
        } else {
            let frag = next_char(s, qmark + 1, '#');
            let qe = if frag < t2e {
                frag
            } else {
                t2e
            };
            code_value_from(s.subrange(qmark + 1, qe), 0)
        }
    }
}

/// The decimal digits of a non-negative number, most significant first.
pub open spec fn dec_digits(n: int) -> Seq<char>
    recommends
        n >= 0,
    decreases n,
{
    if n < 10 {
        seq![hex_digit(n)]
    } else {
        dec_digits(n / 10) + seq![hex_digit(n % 10)]
    }
}

/// The decimal text of a number.
fn dec_string(n: usize) -> (r: String)
    ensures
        r@ == dec_digits(n as int),
    decreases n,
{
    if n < 10 {
        let mut s = String::new();
        crate::scan::push_char(&mut s, digit_char_of(n));
        proof {
            assert(s@ =~= seq![hex_digit(n as int)]);
        }
        s
    } else {
        let mut s = dec_string(n / 10);
        let ghost prev = s@;
        crate::scan::push_char(&mut s, digit_char_of(n % 10));
        proof {
            assert(s@ =~= prev + seq![hex_digit(n as int % 10)]);
        }
        s
    }
}

/// The minimal success page that the local listener sends back once the
/// callback has arrived: a 200 response carrying `body`, whose
/// content-length counts the body's bytes.
pub fn http_ok_response(body: &str) -> (r: String)
    ensures
        r@ == "HTTP/1.1 200 OK\r\ncontent-length: "@ + dec_digits(
            (body.spec_bytes().len() as usize) as int,
        ) + "\r\n\r\n"@ + body@,
{
    let n = body.len();
    let mut out = String::new();
    out.append("HTTP/1.1 200 OK\r\ncontent-length: ");
    let digits = dec_string(n);
    out.append(digits.as_str());
    out.append("\r\n\r\n");
    out.append(body);
    proof {
        assert(out@ =~= "HTTP/1.1 200 OK\r\ncontent-length: "@ + dec_digits(
            (body.spec_bytes().len() as usize) as int,
        ) + "\r\n\r\n"@ + body@);
    }
    out
}

/// The byte of a percent escape at `k`, if one stands there.
fn pct_byte_at(v: &Vec<char>, k: usize) -> (r: Option<u8>)
    ensures
        match r {
            Some(b) => pct_at(v@, k as int) && b == pct_byte(v@, k as int),
            None => !pct_at(v@, k as int),
        },
{
    if k >= v.len() || v.len() - k < 3 {
        return None;
    }
    if v[k] != '%' {
        return None;
    }
    let h1 = hex_val_of(v[k + 1]);
    let h2 = hex_val_of(v[k + 2]);
    match (h1, h2) {
        (Some(a), Some(b)) => Some(a * 16 + b),
        _ => None,
    }
}

/// The payload bits of a continuation-byte escape at `k`, if one stands
/// there.
fn cont_bits_at(v: &Vec<char>, k: usize) -> (r: Option<u8>)
    ensures
        match r {
            Some(b) => cont_at(v@, k as int) && b == cont_bits(v@, k as int) && b < 64,
            None => !cont_at(v@, k as int),
        },
{
    match pct_byte_at(v, k) {
        Some(b) => {
            if b >= 0x80 && b < 0xC0 {
                Some(b - 0x80)
            } else {
                None
            }
        },
        None => None,
    }
}

/// Percent-decode the characters of `v`.
#[verifier::rlimit(60)]
fn pct_decode_chars(v: &Vec<char>) -> (r: Vec<char>)
    ensures
        r@ == pct_decode(v@),
{
    let mut out: Vec<char> = Vec::new();
    let mut i: usize = 0;
    proof {
        assert(v@.skip(0) =~= v@);
        assert(out@ + pct_decode(v@) =~= pct_decode(v@));
    }
    while i < v.len()
        invariant
            i <= v@.len(),
            pct_decode(v@) == out@ + pct_decode(v@.skip(i as int)),
        decreases v@.len() - i,
    {
        let c = v[i];
        proof {
            assert(v@.skip(i as int)[0] == v@[i as int]);
            lemma_pct_shift(v@, i as int, 0);
            lemma_pct_shift(v@, i as int, 3);
            lemma_pct_shift(v@, i as int, 6);
            lemma_pct_shift(v@, i as int, 9);
        }
        if c == '+' {
            let ghost prev = out@;
            out.push(' ');
            proof {
                assert(v@.skip(i as int).drop_first() =~= v@.skip(i + 1));
                assert(out@ =~= prev + seq![' ']);
                assert(prev + (seq![' '] + pct_decode(v@.skip(i + 1))) =~= out@ + pct_decode(
                    v@.skip(i + 1),
                ));
            }
            i = i + 1;
        } else {
            match pct_byte_at(v, i) {
                None => {
                    let ghost prev = out@;
                    out.push(c);
                    proof {
                        assert(!pct_at(v@.skip(i as int), 0));
                        assert(v@.skip(i as int).drop_first() =~= v@.skip(i + 1));
                        assert(out@ =~= prev + seq![c]);
                        assert(prev + (seq![c] + pct_decode(v@.skip(i + 1))) =~= out@
                            + pct_decode(v@.skip(i + 1)));
                    }
                    i = i + 1;
                },
                Some(b0) => {
                    let ghost sfx = v@.skip(i as int);
                    proof {
                        assert(pct_at(sfx, 0) && pct_byte(sfx, 0) == b0);
                    }
                    if b0 < 0x80 {
                        let d = match crate::scan::char_from_code(b0 as u32) {
                            Some(d) => d,
                            None => vstd::pervasive::unreached(),
                        };
                        let ghost prev = out@;
                        out.push(d);
                        proof {
                            vstd::utf8::char_u32_cast(d, b0 as u32);
                            assert(((pct_byte(sfx, 0) as u32) as char) == d);
                            assert(sfx.skip(3) =~= v@.skip(i + 3));
                            assert(out@ =~= prev + seq![d]);
                            assert(pct_decode(sfx) == seq![d] + pct_decode(v@.skip(i + 3)));
                            assert(prev + (seq![d] + pct_decode(v@.skip(i + 3))) =~= out@
                                + pct_decode(v@.skip(i + 3)));
                        }
                        i = i + 3;
                    } else {
                        // A lead byte: gather its continuation escapes.
                        let mut code: u32 = 0;
                        let mut width: usize = 0;
                        if b0 >= 0xC2 && b0 < 0xE0 {
                            if let Some(b1) = cont_bits_at(v, i + 3) {
                                code = ((b0 - 0xC0) as u32) * 0x40 + (b1 as u32);
                                width = 2;
                                proof {
                                    assert(utf8_escape_scalar(sfx) == Some((code as int, 2int)));
                                }
                            }
                        } else if b0 >= 0xE0 && b0 < 0xF0 {
                            let r1 = cont_bits_at(v, i + 3);
                            let r2 = if v.len() - i >= 6 {
                                cont_bits_at(v, i + 6)
                            } else {
                                proof {
                                    assert(!cont_at(v@, i + 6));
                                }
                                None
                            };
                            match (r1, r2) {
                                (Some(b1), Some(b2)) => {
                                    let n: u32 = ((b0 - 0xE0) as u32) * 0x1000 + (b1 as u32)
                                        * 0x40 + (b2 as u32);
                                    if n >= 0x800 && !(n >= 0xD800 && n < 0xE000) {
                                        code = n;
                                        width = 3;
                                        proof {
                                            assert(utf8_escape_scalar(sfx) == Some(
                                                (code as int, 3int),
                                            ));
                                        }
                                    } else {
                                        proof {
                                            assert(utf8_escape_scalar(sfx) is None);
                                        }
                                    }
                                },
                                _ => {
                                    proof {
                                        assert(utf8_escape_scalar(sfx) is None);
                                    }
                                },
                            }
                        } else if b0 >= 0xF0 && b0 < 0xF5 {
                            let r1 = cont_bits_at(v, i + 3);
                            let r2 = if v.len() - i >= 6 {
                                cont_bits_at(v, i + 6)
                            } else {
                                proof {
                                    assert(!cont_at(v@, i + 6));
                                }
                                None
                            };
                            let r3 = if v.len() - i >= 9 {
                                cont_bits_at(v, i + 9)
                            } else {
                                proof {
                                    assert(!cont_at(v@, i + 9));
                                }
                                None
                            };
                            match (r1, r2, r3) {
                                (Some(b1), Some(b2), Some(b3)) => {
                                    let n: u32 = ((b0 - 0xF0) as u32) * 0x40000 + (b1 as u32)
                                        * 0x1000 + (b2 as u32) * 0x40 + (b3 as u32);
                                    if n >= 0x10000 && n <= 0x10FFFF {
                                        code = n;
                                        width = 4;
                                        proof {
                                            assert(utf8_escape_scalar(sfx) == Some(
                                                (code as int, 4int),
                                            ));
                                        }
                                    } else {
                                        proof {
                                            assert(utf8_escape_scalar(sfx) is None);
                                        }
                                    }
                                },
                                _ => {
                                    proof {
                                        assert(utf8_escape_scalar(sfx) is None);
                                    }
                                },
                            }
                        } else {
                            proof {
                                assert(utf8_escape_scalar(sfx) is None);
                            }
                        }
                        if width == 0 {
                            // Malformed: one replacement character per escape.
                            let ghost prev = out@;
                            out.push('\u{fffd}');
                            proof {
                                assert(utf8_escape_scalar(sfx) is None);
                                assert(sfx.skip(3) =~= v@.skip(i + 3));
                                assert(out@ =~= prev + seq!['\u{fffd}']);
                                assert(pct_decode(sfx) == seq!['\u{fffd}'] + pct_decode(
                                    v@.skip(i + 3),
                                ));
                                assert(prev + (seq!['\u{fffd}'] + pct_decode(v@.skip(i + 3)))
                                    =~= out@ + pct_decode(v@.skip(i + 3)));
                            }
                            i = i + 3;
                        } else {
                            let d = match crate::scan::char_from_code(code) {
                                Some(d) => d,
                                None => vstd::pervasive::unreached(),
                            };
                            let ghost prev = out@;
                            out.push(d);
                            let step = 3 * width;
                            proof {
                                vstd::utf8::char_u32_cast(d, code);
                                assert(utf8_escape_scalar(sfx) == Some(
                                    (code as int, width as int),
                                ));
                                assert(((code as u32) as char) == d);
                                assert(sfx.skip(3 * (width as int)) =~= v@.skip(i + step));
                                assert(out@ =~= prev + seq![d]);
                                assert(pct_decode(sfx) == seq![d] + pct_decode(
                                    v@.skip(i + step),
                                ));
                                assert(prev + (seq![d] + pct_decode(v@.skip(i + step))) =~= out@
                                    + pct_decode(v@.skip(i + step)));
                            }
                            i = i + step;
                        }
                    }
                },
            }
        }
    }
    proof {
        assert(v@.skip(v@.len() as int).len() == 0);
        assert(out@ + pct_decode(v@.skip(v@.len() as int)) =~= out@);
    }
    out
}

/// The `code` query parameter's decoded value among the pairs of `q`.
fn code_from_query(q: &Vec<char>) -> (r: Option<String>)
    ensures
        match r {
            Some(c) => code_value_from(q@, 0) == Some(c@),
            None => code_value_from(q@, 0) is None,
        },
{
    let code_pat = to_char_vec("code");
    let mut from: usize = 0;
    loop
        invariant
            from <= q@.len(),
            code_pat@ == "code"@,
            code_value_from(q@, 0) == code_value_from(q@, from as int),
        decreases q@.len() - from,
    {
        if from >= q.len() {
            return None;
        }
        let amp = scan_to_char(q, from, '&');
        let eqp = scan_to_char(q, from, '=');
        let key = if eqp < amp {
            subvec(q, from, eqp)
        } else {
            subvec(q, from, amp)
        };
        let dkey = pct_decode_chars(&key);
        if chars_eq(&dkey, &code_pat) {
            let value = if eqp < amp {
                subvec(q, eqp + 1, amp)
            } else {
                Vec::<char>::new()
            };
            proof {
                if !(eqp < amp) {
                    assert(value@ =~= Seq::<char>::empty());
                }
            }
            let dvalue = pct_decode_chars(&value);
            let s = chars_to_string(&dvalue);
            return Some(s);
        }
        if amp >= q.len() {
            return None;
        }
        from = amp + 1;
    }
}

/// The authorization code carried by the callback's request line, if any.
pub fn extract_auth_code(request_line: &str) -> (r: Option<String>)
    ensures
        match r {
            Some(code) => spec_auth_code(request_line@) == Some(code@),
            None => spec_auth_code(request_line@) is None,
        },
{
    let v = to_char_vec(request_line);
    let t1 = scan_past_spaces(&v, 0);
    let t1e = scan_to_space(&v, t1);
    let t2 = scan_past_spaces(&v, t1e);
    let t2e = scan_to_space(&v, t2);
    if t2 >= v.len() {
        return None;
    }
    let qmark = scan_to_char(&v, t2, '?');
    if qmark >= t2e {
        return None;
    }
    let frag = scan_to_char(&v, qmark + 1, '#');
    let qe = if frag < t2e {
        frag
    } else {
        t2e
    };
    let q = subvec(&v, qmark + 1, qe);
    code_from_query(&q)
}

} // verus!
