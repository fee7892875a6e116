//! OAuth2 token pairs: the credential-file JSON codec and the
//! token-retrieval policy.

use vstd::prelude::*;
use vstd::string::StringExecFns;

use crate::scan::{hex_digit, hex_val, hex_val_of, push_char, to_char_vec};

verus! {

/// A pair of OAuth2 credentials: a short-lived access token and an
/// optional longer-lived refresh token.
pub struct Tokens {
    pub access_token: String,
    pub refresh_token: Option<String>,
}

impl Tokens {
    /// The refresh token's characters, when one is held.
    pub open spec fn spec_refresh(self) -> Option<Seq<char>> {
        match self.refresh_token {
            Some(r) => Some(r@),
            None => None,
        }
    }
}

/// A refreshed pair keeps the new access token and falls back to the
/// previous refresh token when the provider does not issue a new one.
pub fn after_refresh(previous_refresh: String, access: String, new_refresh: Option<String>) -> (r:
    Tokens)
    ensures
        r.access_token == access,
        r.refresh_token == (match new_refresh {
            Some(t) => Some(t),
            None => Some(previous_refresh),
        }),
{
    match new_refresh {
        Some(t) => Tokens { access_token: access, refresh_token: Some(t) },
        None => Tokens { access_token: access, refresh_token: Some(previous_refresh) },
    }
}

// ---------------------------------------------------------------------------
// The credential-file JSON codec
// ---------------------------------------------------------------------------
/// A double quote or a backslash is escaped with a backslash; a control
/// character becomes a `\u00XX` escape; every other character stands for
/// itself.
pub open spec fn esc_char(c: char) -> Seq<char> {
    if c == '"' || c == '\\' {
        seq!['\\', c]
    } else if (c as u32) < 32 {
        seq!['\\', 'u', '0', '0', hex_digit(((c as u32) as int) / 16), hex_digit(
            ((c as u32) as int) % 16,
        )]
    } else {
        seq![c]
    }
}

/// The characters of a JSON string body encoding `s`.
pub open spec fn json_escape(s: Seq<char>) -> Seq<char>
    decreases s.len(),
{
    if s.len() == 0 {
        Seq::empty()
    } else {
        esc_char(s[0]) + json_escape(s.drop_first())
    }
}

/// A JSON string: the escaped characters between double quotes.
pub open spec fn quoted(s: Seq<char>) -> Seq<char> {
    seq!['"'] + json_escape(s) + seq!['"']
}

/// The credential file's text for a token pair: a JSON object holding the
/// access token and the refresh token, the latter `null` when absent.
pub open spec fn spec_tokens_json(access: Seq<char>, refresh: Option<Seq<char>>) -> Seq<char> {
    seq!['{'] + quoted("access_token"@) + seq![':'] + quoted(access) + seq![','] + quoted(
        "refresh_token"@,
    ) + seq![':'] + (match refresh {
        Some(r) => quoted(r),
        None => "null"@,
    }) + seq!['}']
}

/// A JSON whitespace character.
pub open spec fn is_json_ws(c: char) -> bool {
    c == ' ' || c == '\t' || c == '\n' || c == '\r'
}

/// The text with its leading whitespace dropped.
pub open spec fn skip_json_ws(s: Seq<char>) -> Seq<char>
    decreases s.len(),
{
    if s.len() > 0 && is_json_ws(s[0]) {
        skip_json_ws(s.drop_first())
    } else {
        s
    }
}

/// The character that a named escape stands for.
pub open spec fn ctrl_escape_of(e: char) -> char {
    if e == 'b' {
        '\u{8}'
    } else if e == 'f' {
        '\u{c}'
    } else if e == 'n' {
        '\n'
    } else if e == 'r' {
        '\r'
    } else {
        '\t'
    }
}

/// Read a JSON string body from the front of `s`: the characters up to the
/// closing quote, with the standard escapes undone, and the remainder after
/// the quote. A `\uXXXX` escape yields its code point, a high surrogate
/// joined with the following low-surrogate escape; a lone surrogate, any
/// other escape, or a missing closing quote fails.
pub open spec fn parse_string_body(s: Seq<char>) -> Option<(Seq<char>, Seq<char>)>
    decreases s.len(),
{
    if s.len() == 0 {
        None
    } else if s[0] == '"' {
        Some((Seq::empty(), s.drop_first()))
    } else if s[0] == '\\' {
        if s.len() >= 2 && (s[1] == '"' || s[1] == '\\' || s[1] == '/') {
            match parse_string_body(s.skip(2)) {
                Some(p) => Some((seq![s[1]] + p.0, p.1)),
                None => None,
            }
        } else if s.len() >= 2 && (s[1] == 'b' || s[1] == 'f' || s[1] == 'n' || s[1] == 'r'
            || s[1] == 't') {
            match parse_string_body(s.skip(2)) {
                Some(p) => Some((seq![ctrl_escape_of(s[1])] + p.0, p.1)),
                None => None,
            }
        } else if s.len() >= 6 && s[1] == 'u' && hex_val(s[2]) >= 0 && hex_val(s[3]) >= 0
            && hex_val(s[4]) >= 0 && hex_val(s[5]) >= 0 {
            let n = hex_val(s[2]) * 4096 + hex_val(s[3]) * 256 + hex_val(s[4]) * 16 + hex_val(
                s[5],
            );
            if 0xD800 <= n < 0xDC00 {
                if s.len() >= 12 && s[6] == '\\' && s[7] == 'u' && hex_val(s[8]) >= 0 && hex_val(
                    s[9],
                ) >= 0 && hex_val(s[10]) >= 0 && hex_val(s[11]) >= 0 {
                    let n2 = hex_val(s[8]) * 4096 + hex_val(s[9]) * 256 + hex_val(s[10]) * 16
                        + hex_val(s[11]);
                    if 0xDC00 <= n2 < 0xE000 {
                        let code = 0x10000 + (n - 0xD800) * 1024 + (n2 - 0xDC00);
                        match parse_string_body(s.skip(12)) {
                            Some(p) => Some((seq![((code as u32) as char)] + p.0, p.1)),
                            None => None,
                        }
                    } else {
                        None
                    }
                } else {
                    None
                }
            } else if 0xDC00 <= n < 0xE000 {
                None
            } else {
                match parse_string_body(s.skip(6)) {
                    Some(p) => Some((seq![((n as u32) as char)] + p.0, p.1)),
                    None => None,
                }
            }
        } else {
            None
        }
    } else {
        match parse_string_body(s.drop_first()) {
            Some(p) => Some((seq![s[0]] + p.0, p.1)),
            None => None,
        }
    }
}

/// Read one object member from the front of `s`: a string key, a colon, and
/// a value that is a string or `null`; whitespace may stand around the
/// colon. Yields the key, the value (`None` for `null`), and the remainder.
pub open spec fn parse_member(s: Seq<char>) -> Option<(Seq<char>, Option<Seq<char>>, Seq<char>)> {
    if s.len() >= 1 && s[0] == '"' {
        match parse_string_body(s.drop_first()) {
            Some(kp) => {
                let s2 = skip_json_ws(kp.1);
                if s2.len() >= 1 && s2[0] == ':' {
                    let s3 = skip_json_ws(s2.drop_first());
                    if s3.len() >= 1 && s3[0] == '"' {
                        match parse_string_body(s3.drop_first()) {
                            Some(vp) => Some((kp.0, Some(vp.0), vp.1)),
                            None => None,
                        }
                    } else if s3.len() >= 4 && s3[0] == 'n' && s3[1] == 'u' && s3[2] == 'l'
                        && s3[3] == 'l' {
                        Some((kp.0, None, s3.skip(4)))
                    } else {
                        None
                    }
                } else {
                    None
                }
            },
            None => None,
        }
    } else {
        None
    }
}

/// The token pair named by one or two parsed members: the access token must
/// be present as a string, each key at most once, in either order; the
/// refresh token may be a string, `null`, or missing.
pub open spec fn assemble_tokens(
    k1: Seq<char>,
    v1: Option<Seq<char>>,
    m2: Option<(Seq<char>, Option<Seq<char>>)>,
) -> Option<(Seq<char>, Option<Seq<char>>)> {
    match m2 {
        None => if k1 == "access_token"@ && v1 is Some {
            Some((v1->0, None))
        } else {
            None
        },
        Some(m) => if k1 == "access_token"@ && m.0 == "refresh_token"@ && v1 is Some {
            Some((v1->0, m.1))
        } else if k1 == "refresh_token"@ && m.0 == "access_token"@ && m.1 is Some {
            Some((m.1->0, v1))
        } else {
            None
        },
    }
}

/// Read a token pair from the credential file's text: a JSON object with
/// the documented fields, in either order, with whitespace between tokens
/// and the standard string escapes.
pub open spec fn parse_tokens_json(s: Seq<char>) -> Option<(Seq<char>, Option<Seq<char>>)> {
    let s0 = skip_json_ws(s);
    if s0.len() >= 1 && s0[0] == '{' {
        let s1 = skip_json_ws(s0.drop_first());
        match parse_member(s1) {
            Some(m1) => {
                let s2 = skip_json_ws(m1.2);
                if s2.len() >= 1 && s2[0] == ',' {
                    let s3 = skip_json_ws(s2.drop_first());
                    match parse_member(s3) {
                        Some(m2) => {
                            let s4 = skip_json_ws(m2.2);
                            if s4.len() >= 1 && s4[0] == '}' && skip_json_ws(
                                s4.drop_first(),
                            ).len() == 0 {
                                assemble_tokens(m1.0, m1.1, Some((m2.0, m2.1)))
                            } else {
                                None
                            }
                        },
                        None => None,
                    }
                } else if s2.len() >= 1 && s2[0] == '}' && skip_json_ws(s2.drop_first()).len()
                    == 0 {
                    assemble_tokens(m1.0, m1.1, None)
                } else {
                    None
                }
            },
            None => None,
        }
    } else {
        None
    }
}

/// A text free of quotes, backslashes and control characters.
pub open spec fn plain_text(s: Seq<char>) -> bool {
    forall|i: int|
        0 <= i < s.len() ==> (#[trigger] s[i]) != '"' && s[i] != '\\' && (s[i] as u32) >= 32
}

/// Escaping leaves a plain text as it stands.
proof fn lemma_escape_plain(s: Seq<char>)
    requires
        plain_text(s),
    ensures
        json_escape(s) == s,
    decreases s.len(),
{
    if s.len() > 0 {
        assert(esc_char(s[0]) =~= seq![s[0]]);
        assert(plain_text(s.drop_first()));
        lemma_escape_plain(s.drop_first());
        assert(seq![s[0]] + s.drop_first() =~= s);
    }
}

/// The fixed pieces of the codec's text, spelled out.
proof fn lemma_chunks()
    ensures
        "{\"access_token\":\""@ =~= seq!['{'] + quoted("access_token"@) + seq![':'] + seq!['"'],
        ",\"refresh_token\":"@ =~= seq![','] + quoted("refresh_token"@) + seq![':'],
        "\"}"@ =~= seq!['"', '}'],
        "\""@ =~= seq!['"'],
        "null}"@ =~= "null"@ + seq!['}'],
        "null"@ =~= seq!['n', 'u', 'l', 'l'],
        plain_text("access_token"@),
        plain_text("refresh_token"@),
{
    reveal_strlit("{\"access_token\":\"");
    reveal_strlit(",\"refresh_token\":");
    reveal_strlit("\"}");
    reveal_strlit("\"");
    reveal_strlit("null}");
    reveal_strlit("null");
    reveal_strlit("access_token");
    reveal_strlit("refresh_token");
    lemma_escape_plain("access_token"@);
    lemma_escape_plain("refresh_token"@);
}

/// Reading a string body back from its escaped form recovers the unescaped
/// characters and leaves whatever follows the closing quote.
proof fn lemma_parse_escape(v: Seq<char>, rest: Seq<char>)
    ensures
        parse_string_body(json_escape(v) + seq!['"'] + rest) == Some((v, rest)),
    decreases v.len(),
{
    let s = json_escape(v) + seq!['"'] + rest;
    if v.len() == 0 {
        assert(s =~= seq!['"'] + rest);
        assert(s[0] == '"');
        assert(s.drop_first() =~= rest);
    } else {
        let c = v[0];
        let ci = (c as u32) as int;
        let tail = v.drop_first();
        lemma_parse_escape(tail, rest);
        if c == '"' || c == '\\' {
            assert(s =~= seq!['\\', c] + (json_escape(tail) + seq!['"'] + rest));
            assert(s[0] == '\\' && s[1] == c);
            assert(s.skip(2) =~= json_escape(tail) + seq!['"'] + rest);
            assert(seq![s[1]] + tail =~= v);
        } else if ci < 32 {
            let h1 = hex_digit(ci / 16);
            let h2 = hex_digit(ci % 16);
            assert(s =~= seq!['\\', 'u', '0', '0', h1, h2] + (json_escape(tail) + seq!['"']
                + rest));
            assert(s[0] == '\\' && s[1] == 'u' && s[2] == '0' && s[3] == '0' && s[4] == h1 && s[5]
                == h2);
            assert(hex_val('0') == 0);
            crate::scan::lemma_hex_digit_val(ci / 16);
            crate::scan::lemma_hex_digit_val(ci % 16);
            let n = hex_val(s[2]) * 4096 + hex_val(s[3]) * 256 + hex_val(s[4]) * 16 + hex_val(
                s[5],
            );
            assert(n == ci);
            assert((n as u32) == c as u32);
            vstd::utf8::char_u32_cast(c, c as u32);
            assert(((n as u32) as char) == c);
            assert(s.skip(6) =~= json_escape(tail) + seq!['"'] + rest);
            assert(seq![((n as u32) as char)] + tail =~= v);
        } else {
            assert(s =~= seq![c] + (json_escape(tail) + seq!['"'] + rest));
            assert(s[0] == c);
            assert(s.drop_first() =~= json_escape(tail) + seq!['"'] + rest);
            assert(seq![s[0]] + tail =~= v);
        }
    }
}

/// A token pair written as the credential file's text and read back again
/// yields the same access token and the same refresh token.
#[verifier::rlimit(100)]
pub proof fn lemma_tokens_round_trip(access: Seq<char>, refresh: Option<Seq<char>>)
    ensures
        parse_tokens_json(spec_tokens_json(access, refresh)) == Some((access, refresh)),
{
    lemma_chunks();
    let s = spec_tokens_json(access, refresh);
    let vtail = match refresh {
        Some(r) => quoted(r),
        None => "null"@,
    };
    let rest3 = seq![':'] + vtail + seq!['}'];
    let rest2 = seq![','] + quoted("refresh_token"@) + seq![':'] + vtail + seq!['}'];
    let rest1 = seq![':'] + quoted(access) + rest2;
    // The opening brace.
    assert(s =~= seq!['{'] + (seq!['"'] + (json_escape("access_token"@) + seq!['"'] + rest1)));
    assert(s[0] == '{');
    assert(skip_json_ws(s) == s);
    let s1 = s.drop_first();
    assert(s1 =~= seq!['"'] + (json_escape("access_token"@) + seq!['"'] + rest1));
    assert(s1[0] == '"');
    assert(skip_json_ws(s1) == s1);
    // The first member: the access token's key and value.
    assert(s1.drop_first() =~= json_escape("access_token"@) + seq!['"'] + rest1);
    lemma_parse_escape("access_token"@, rest1);
    assert(rest1[0] == ':');
    assert(skip_json_ws(rest1) == rest1);
    let s3 = rest1.drop_first();
    assert(s3 =~= seq!['"'] + (json_escape(access) + seq!['"'] + rest2));
    assert(s3[0] == '"');
    assert(skip_json_ws(s3) == s3);
    assert(s3.drop_first() =~= json_escape(access) + seq!['"'] + rest2);
    lemma_parse_escape(access, rest2);
    assert(parse_member(s1) == Some(("access_token"@, Some(access), rest2)));
    // The comma and the second member: the refresh token's key and value.
    assert(rest2[0] == ',');
    assert(skip_json_ws(rest2) == rest2);
    let t1 = rest2.drop_first();
    assert(t1 =~= seq!['"'] + (json_escape("refresh_token"@) + seq!['"'] + rest3));
    assert(t1[0] == '"');
    assert(skip_json_ws(t1) == t1);
    assert(t1.drop_first() =~= json_escape("refresh_token"@) + seq!['"'] + rest3);
    lemma_parse_escape("refresh_token"@, rest3);
    assert(rest3[0] == ':');
    assert(skip_json_ws(rest3) == rest3);
    let t3 = rest3.drop_first();
    assert(t3 =~= vtail + seq!['}']);
    match refresh {
        None => {
            assert(t3 =~= seq!['n', 'u', 'l', 'l'] + seq!['}']);
            assert(t3[0] == 'n' && t3[1] == 'u' && t3[2] == 'l' && t3[3] == 'l');
            assert(skip_json_ws(t3) == t3);
            assert(t3.skip(4) =~= seq!['}']);
            assert(parse_member(t1) == Some(("refresh_token"@, None::<Seq<char>>, seq!['}'])));
        },
        Some(r) => {
            assert(t3 =~= seq!['"'] + (json_escape(r) + seq!['"'] + seq!['}']));
            assert(t3[0] == '"');
            assert(skip_json_ws(t3) == t3);
            assert(t3.drop_first() =~= json_escape(r) + seq!['"'] + seq!['}']);
            lemma_parse_escape(r, seq!['}']);
            assert(parse_member(t1) == Some(("refresh_token"@, Some(r), seq!['}'])));
        },
    }
    // The closing brace and the end of the text.
    let close = seq!['}'];
    assert(close[0] == '}');
    assert(skip_json_ws(close) == close);
    assert(close.drop_first() =~= Seq::<char>::empty());
    assert(skip_json_ws(Seq::<char>::empty()).len() == 0);
}

/// Appending a character extends the escaped form by that character's
/// escape.
proof fn lemma_json_escape_push(s: Seq<char>, c: char)
    ensures
        json_escape(s.push(c)) == json_escape(s) + esc_char(c),
    decreases s.len(),
{
    if s.len() == 0 {
        assert(s.push(c) =~= seq![c]);
        assert(s.push(c)[0] == c);
        assert(s.push(c).drop_first() =~= Seq::<char>::empty());
        assert(json_escape(Seq::<char>::empty()) =~= Seq::<char>::empty());
        assert(esc_char(c) + Seq::<char>::empty() =~= esc_char(c));
        assert(json_escape(s.push(c)) =~= esc_char(c));
    } else {
        assert(s.push(c)[0] == s[0]);
        assert(s.push(c).drop_first() =~= s.drop_first().push(c));
        lemma_json_escape_push(s.drop_first(), c);
        assert(json_escape(s.push(c)) =~= esc_char(s[0]) + (json_escape(s.drop_first())
            + esc_char(c)));
        assert(json_escape(s) + esc_char(c) =~= esc_char(s[0]) + (json_escape(s.drop_first())
            + esc_char(c)));
    }
}

/// Append the escaped form of `s` to `out`.
fn append_escaped(out: &mut String, s: &str)
    ensures
        final(out)@ == old(out)@ + json_escape(s@),
{
    let v = to_char_vec(s);
    let mut i: usize = 0;
    while i < v.len()
        invariant
            i <= v@.len(),
            v@ == s@,
            out@ == old(out)@ + json_escape(v@.take(i as int)),
        decreases v@.len() - i,
    {
        let c = v[i];
        let ghost prev = out@;
        if c == '"' || c == '\\' {
            push_char(out, '\\');
            push_char(out, c);
            proof {
                assert(out@ =~= prev + esc_char(v@[i as int]));
            }
        } else {
            let u = c as u32;
            if u < 32 {
                push_char(out, '\\');
                push_char(out, 'u');
                push_char(out, '0');
                push_char(out, '0');
                let hi = crate::scan::hex_char_of((u / 16) as usize);
                let lo = crate::scan::hex_char_of((u % 16) as usize);
                push_char(out, hi);
                push_char(out, lo);
                proof {
                    assert(hi == hex_digit(((c as u32) as int) / 16));
                    assert(lo == hex_digit(((c as u32) as int) % 16));
                    assert(esc_char(c) =~= seq!['\\', 'u', '0', '0', hex_digit(
                        ((c as u32) as int) / 16,
                    ), hex_digit(((c as u32) as int) % 16)]);
                    assert(out@ =~= prev + esc_char(v@[i as int]));
                }
            } else {
                push_char(out, c);
                proof {
                    assert(esc_char(c) =~= seq![c]);
                    assert(out@ =~= prev + esc_char(v@[i as int]));
                }
            }
        }
        proof {
            assert(v@.take(i + 1).drop_last() =~= v@.take(i as int));
            assert(v@.take(i + 1) =~= v@.take(i as int).push(v@[i as int]));
            lemma_json_escape_push(v@.take(i as int), v@[i as int]);
            assert(out@ =~= old(out)@ + json_escape(v@.take(i + 1)));
        }
        i = i + 1;
    }
    proof {
        assert(v@.take(v@.len() as int) =~= v@);
    }
}

impl Tokens {
    /// The credential file's text for this pair, in the compact form with
    /// the access token first.
    pub fn to_json(&self) -> (r: String)
        ensures
            r@ == spec_tokens_json(self.access_token@, self.spec_refresh()),
    {
        proof {
            lemma_chunks();
        }
        let mut out = String::new();
        out.append("{\"access_token\":\"");
        append_escaped(&mut out, self.access_token.as_str());
        out.append("\"");
        out.append(",\"refresh_token\":");
        match &self.refresh_token {
            Some(r) => {
                out.append("\"");
                append_escaped(&mut out, r.as_str());
                out.append("\"}");
            },
            None => {
                out.append("null}");
            },
        }
        proof {
            assert(out@ =~= spec_tokens_json(self.access_token@, self.spec_refresh()));
        }
        out
    }
}

/// Read a JSON string body from `v` starting at `start`: the decoded
/// characters and the index just past the closing quote.
fn parse_string_at(v: &Vec<char>, start: usize) -> (r: Option<(String, usize)>)
    requires
        start <= v@.len(),
    ensures
        match r {
            Some(p) => {
                &&& start < p.1 <= v@.len()
                &&& parse_string_body(v@.skip(start as int)) matches Some(q) && q.0 == p.0@ && q.1
                    == v@.skip(p.1 as int)
            },
            None => parse_string_body(v@.skip(start as int)) is None,
        },
{
    let mut out = String::new();
    let mut i = start;
    loop
        invariant
            start <= i <= v@.len(),
            (match parse_string_body(v@.skip(i as int)) {
                Some(q) => parse_string_body(v@.skip(start as int)) == Some((out@ + q.0, q.1)),
                None => parse_string_body(v@.skip(start as int)) is None,
            }),
        decreases v@.len() - i,
    {
        if i >= v.len() {
            proof {
                assert(v@.skip(i as int).len() == 0);
            }
            return None;
        }
        let c = v[i];
        proof {
            assert(v@.skip(i as int)[0] == v@[i as int]);
        }
        if c == '"' {
            proof {
                assert(v@.skip(i as int).drop_first() =~= v@.skip(i + 1));
                assert(parse_string_body(v@.skip(i as int)) == Some(
                    (Seq::<char>::empty(), v@.skip(i + 1)),
                ));
                assert(out@ + Seq::<char>::empty() =~= out@);
            }
            return Some((out, i + 1));
        } else if c == '\\' {
            if i + 1 >= v.len() {
                proof {
                    assert(v@.skip(i as int).len() == 1);
                }
                return None;
            }
            let c2 = v[i + 1];
            proof {
                assert(v@.skip(i as int)[1] == v@[i + 1]);
            }
            if c2 == '"' || c2 == '\\' || c2 == '/' {
                let ghost prev = out@;
                push_char(&mut out, c2);
                proof {
                    assert(v@.skip(i as int).skip(2) =~= v@.skip(i + 2));
                    assert(out@ =~= prev + seq![c2]);
                    let sfx = parse_string_body(v@.skip(i + 2));
                    if sfx is Some {
                        let q = sfx->0;
                        assert(parse_string_body(v@.skip(i as int)) == Some(
                            (seq![c2] + q.0, q.1),
                        ));
                        assert(prev + (seq![c2] + q.0) =~= out@ + q.0);
                    }
                }
                i = i + 2;
            } else if c2 == 'b' || c2 == 'f' || c2 == 'n' || c2 == 'r' || c2 == 't' {
                let d = if c2 == 'b' {
                    '\u{8}'
                } else if c2 == 'f' {
                    '\u{c}'
                } else if c2 == 'n' {
                    '\n'
                } else if c2 == 'r' {
                    '\r'
                } else {
                    '\t'
                };
                let ghost prev = out@;
                push_char(&mut out, d);
                proof {
                    assert(d == ctrl_escape_of(c2));
                    assert(v@.skip(i as int).skip(2) =~= v@.skip(i + 2));
                    assert(out@ =~= prev + seq![d]);
                    let sfx = parse_string_body(v@.skip(i + 2));
                    if sfx is Some {
                        let q = sfx->0;
                        assert(parse_string_body(v@.skip(i as int)) == Some((seq![d] + q.0, q.1)));
                        assert(prev + (seq![d] + q.0) =~= out@ + q.0);
                    }
                }
                i = i + 2;
            } else if c2 == 'u' {
                if v.len() - i < 6 {
                    return None;
                }
                proof {
                    assert(v@.skip(i as int)[2] == v@[i + 2]);
                    assert(v@.skip(i as int)[3] == v@[i + 3]);
                    assert(v@.skip(i as int)[4] == v@[i + 4]);
                    assert(v@.skip(i as int)[5] == v@[i + 5]);
                }
                let h1 = hex_val_of(v[i + 2]);
                let h2 = hex_val_of(v[i + 3]);
                let h3 = hex_val_of(v[i + 4]);
                let h4 = hex_val_of(v[i + 5]);
                match (h1, h2, h3, h4) {
                    (Some(a), Some(b), Some(g), Some(e)) => {
                        let n: u32 = (a as u32) * 4096 + (b as u32) * 256 + (g as u32) * 16 + (
                        e as u32);
                        if n >= 0xD800 && n < 0xDC00 {
                            if v.len() - i < 12 {
                                return None;
                            }
                            proof {
                                assert(v@.skip(i as int)[6] == v@[i + 6]);
                                assert(v@.skip(i as int)[7] == v@[i + 7]);
                                assert(v@.skip(i as int)[8] == v@[i + 8]);
                                assert(v@.skip(i as int)[9] == v@[i + 9]);
                                assert(v@.skip(i as int)[10] == v@[i + 10]);
                                assert(v@.skip(i as int)[11] == v@[i + 11]);
                            }
                            if v[i + 6] != '\\' || v[i + 7] != 'u' {
                                return None;
                            }
                            let g1 = hex_val_of(v[i + 8]);
                            let g2 = hex_val_of(v[i + 9]);
                            let g3 = hex_val_of(v[i + 10]);
                            let g4 = hex_val_of(v[i + 11]);
                            match (g1, g2, g3, g4) {
                                (Some(p1), Some(p2), Some(p3), Some(p4)) => {
                                    let n2: u32 = (p1 as u32) * 4096 + (p2 as u32) * 256 + (
                                    p3 as u32) * 16 + (p4 as u32);
                                    if n2 >= 0xDC00 && n2 < 0xE000 {
                                        let code: u32 = 0x10000 + (n - 0xD800) * 1024 + (n2
                                            - 0xDC00);
                                        match crate::scan::char_from_code(code) {
                                            Some(d) => {
                                                let ghost prev = out@;
                                                push_char(&mut out, d);
                                                proof {
                                                    vstd::utf8::char_u32_cast(d, code);
                                                    assert(((code as u32) as char) == d);
                                                    assert(v@.skip(i as int).skip(12) =~= v@.skip(
                                                        i + 12,
                                                    ));
                                                    assert(out@ =~= prev + seq![d]);
                                                    let sfx = parse_string_body(v@.skip(i + 12));
                                                    if sfx is Some {
                                                        let q = sfx->0;
                                                        assert(parse_string_body(
                                                            v@.skip(i as int),
                                                        ) == Some((seq![d] + q.0, q.1)));
                                                        assert(prev + (seq![d] + q.0) =~= out@
                                                            + q.0);
                                                    }
                                                }
                                                i = i + 12;
                                            },
                                            None => {
                                                proof {
                                                    assert(false);
                                                }
                                                return None;
                                            },
                                        }
                                    } else {
                                        return None;
                                    }
                                },
                                _ => {
                                    return None;
                                },
                            }
                        } else if n >= 0xDC00 && n < 0xE000 {
                            return None;
                        } else {
                            match crate::scan::char_from_code(n) {
                                Some(d) => {
                                    let ghost prev = out@;
                                    push_char(&mut out, d);
                                    proof {
                                        vstd::utf8::char_u32_cast(d, n);
                                        assert(((n as u32) as char) == d);
                                        assert(v@.skip(i as int).skip(6) =~= v@.skip(i + 6));
                                        assert(out@ =~= prev + seq![d]);
                                        let sfx = parse_string_body(v@.skip(i + 6));
                                        if sfx is Some {
                                            let q = sfx->0;
                                            assert(parse_string_body(v@.skip(i as int)) == Some(
                                                (seq![d] + q.0, q.1),
                                            ));
                                            assert(prev + (seq![d] + q.0) =~= out@ + q.0);
                                        }
                                    }
                                    i = i + 6;
                                },
                                None => {
                                    proof {
                                        assert(false);
                                    }
                                    return None;
                                },
                            }
                        }
                    },
                    _ => {
                        return None;
                    },
                }
            } else {
                return None;
            }
        } else {
            let ghost prev = out@;
            push_char(&mut out, c);
            proof {
                assert(v@.skip(i as int).drop_first() =~= v@.skip(i + 1));
                assert(out@ =~= prev + seq![c]);
                let sfx = parse_string_body(v@.skip(i + 1));
                if sfx is Some {
                    let q = sfx->0;
                    assert(parse_string_body(v@.skip(i as int)) == Some((seq![c] + q.0, q.1)));
                    assert(prev + (seq![c] + q.0) =~= out@ + q.0);
                }
            }
            i = i + 1;
        }
    }
}

/// Scan past JSON whitespace from `i` on.
fn skip_ws_at(v: &Vec<char>, i: usize) -> (j: usize)
    requires
        i <= v@.len(),
    ensures
        i <= j <= v@.len(),
        v@.skip(j as int) == skip_json_ws(v@.skip(i as int)),
{
    let mut j = i;
    loop
        invariant
            i <= j <= v@.len(),
            skip_json_ws(v@.skip(i as int)) == skip_json_ws(v@.skip(j as int)),
        decreases v@.len() - j,
    {
        if j >= v.len() {
            proof {
                assert(v@.skip(j as int).len() == 0);
            }
            return j;
        }
        let c = v[j];
        proof {
            assert(v@.skip(j as int)[0] == v@[j as int]);
        }
        if c == ' ' || c == '\t' || c == '\n' || c == '\r' {
            proof {
                assert(v@.skip(j as int).drop_first() =~= v@.skip(j + 1));
            }
            j = j + 1;
        } else {
            return j;
        }
    }
}

/// Read one object member from `v` starting at `i`: the key, the value
/// (`None` for `null`), and the index after the value.
#[verifier::rlimit(60)]
fn parse_member_at(v: &Vec<char>, i: usize) -> (r: Option<(String, Option<String>, usize)>)
    requires
        i <= v@.len(),
    ensures
        match r {
            Some(p) => {
                &&& p.2 <= v@.len()
                &&& parse_member(v@.skip(i as int)) matches Some(q) && q.0 == p.0@ && (match p.1 {
                    Some(val) => q.1 == Some(val@),
                    None => q.1 is None,
                }) && q.2 == v@.skip(p.2 as int)
            },
            None => parse_member(v@.skip(i as int)) is None,
        },
{
    let n = v.len();
    if i >= n {
        proof {
            assert(v@.skip(i as int).len() == 0);
        }
        return None;
    }
    proof {
        assert(v@.skip(i as int)[0] == v@[i as int]);
    }
    if v[i] != '"' {
        return None;
    }
    proof {
        assert(v@.skip(i as int).drop_first() =~= v@.skip(i + 1));
    }
    match parse_string_at(v, i + 1) {
        None => None,
        Some((key, j)) => {
            let j2 = skip_ws_at(v, j);
            if j2 >= n {
                proof {
                    assert(v@.skip(j2 as int).len() == 0);
                }
                return None;
            }
            proof {
                assert(v@.skip(j2 as int)[0] == v@[j2 as int]);
            }
            if v[j2] != ':' {
                return None;
            }
            proof {
                assert(v@.skip(j2 as int).drop_first() =~= v@.skip(j2 + 1));
            }
            let j3 = skip_ws_at(v, j2 + 1);
            if j3 < n {
                proof {
                    assert(v@.skip(j3 as int)[0] == v@[j3 as int]);
                }
            }
            if j3 < n && v[j3] == '"' {
                proof {
                    assert(v@.skip(j3 as int).drop_first() =~= v@.skip(j3 + 1));
                }
                match parse_string_at(v, j3 + 1) {
                    None => None,
                    Some((val, e)) => Some((key, Some(val), e)),
                }
            } else if n - j3 >= 4 {
                proof {
                    assert(v@.skip(j3 as int)[0] == v@[j3 as int]);
                    assert(v@.skip(j3 as int)[1] == v@[j3 + 1]);
                    assert(v@.skip(j3 as int)[2] == v@[j3 + 2]);
                    assert(v@.skip(j3 as int)[3] == v@[j3 + 3]);
                }
                if v[j3] == 'n' && v[j3 + 1] == 'u' && v[j3 + 2] == 'l' && v[j3 + 3] == 'l' {
                    proof {
                        assert(v@.skip(j3 as int).skip(4) =~= v@.skip(j3 + 4));
                    }
                    Some((key, None, j3 + 4))
                } else {
                    None
                }
            } else {
                None
            }
        },
    }
}

impl Tokens {
    /// Read a token pair back from the credential file's text: a JSON
    /// object with the documented fields, in either order, with whitespace
    /// between tokens and the standard string escapes.
    pub fn from_json(s: &str) -> (r: Option<Tokens>)
        ensures
            match r {
                Some(t) => parse_tokens_json(s@) == Some((t.access_token@, t.spec_refresh())),
                None => parse_tokens_json(s@) is None,
            },
    {
        let v = to_char_vec(s);
        let n = v.len();
        proof {
            assert(v@.skip(0) =~= v@);
        }
        let i0 = skip_ws_at(&v, 0);
        if i0 >= n {
            proof {
                assert(v@.skip(i0 as int).len() == 0);
            }
            return None;
        }
        proof {
            assert(v@.skip(i0 as int)[0] == v@[i0 as int]);
        }
        if v[i0] != '{' {
            return None;
        }
        proof {
            assert(v@.skip(i0 as int).drop_first() =~= v@.skip(i0 + 1));
        }
        let i1 = skip_ws_at(&v, i0 + 1);
        match parse_member_at(&v, i1) {
            None => None,
            Some((k1, v1, r1)) => {
                let i2 = skip_ws_at(&v, r1);
                if i2 >= n {
                    proof {
                        assert(v@.skip(i2 as int).len() == 0);
                    }
                    return None;
                }
                proof {
                    assert(v@.skip(i2 as int)[0] == v@[i2 as int]);
                }
                let c2 = v[i2];
                proof {
                    assert(v@.skip(i2 as int).drop_first() =~= v@.skip(i2 + 1));
                }
                if c2 == ',' {
                    let i3 = skip_ws_at(&v, i2 + 1);
                    match parse_member_at(&v, i3) {
                        None => None,
                        Some((k2, v2, r2)) => {
                            let i4 = skip_ws_at(&v, r2);
                            if i4 >= n {
                                proof {
                                    assert(v@.skip(i4 as int).len() == 0);
                                }
                                return None;
                            }
                            proof {
                                assert(v@.skip(i4 as int)[0] == v@[i4 as int]);
                            }
                            if v[i4] != '}' {
                                return None;
                            }
                            proof {
                                assert(v@.skip(i4 as int).drop_first() =~= v@.skip(i4 + 1));
                            }
                            let i5 = skip_ws_at(&v, i4 + 1);
                            if i5 != n {
                                proof {
                                    assert(v@.skip(i5 as int).len() != 0);
                                }
                                return None;
                            }
                            proof {
                                assert(v@.skip(i5 as int).len() == 0);
                            }
                            let acc_key: String = "access_token".to_owned();
                            let ref_key: String = "refresh_token".to_owned();
                            if k1 == acc_key && k2 == ref_key && v1.is_some() {
                                Some(Tokens { access_token: v1.unwrap(), refresh_token: v2 })
                            } else if k1 == ref_key && k2 == acc_key && v2.is_some() {
                                Some(Tokens { access_token: v2.unwrap(), refresh_token: v1 })
                            } else {
                                None
                            }
                        },
                    }
                } else if c2 == '}' {
                    let i5 = skip_ws_at(&v, i2 + 1);
                    if i5 != n {
                        proof {
                            assert(v@.skip(i5 as int).len() != 0);
                        }
                        return None;
                    }
                    proof {
                        assert(v@.skip(i5 as int).len() == 0);
                    }
                    let acc_key: String = "access_token".to_owned();
                    if k1 == acc_key && v1.is_some() {
                        Some(Tokens { access_token: v1.unwrap(), refresh_token: None })
                    } else {
                        None
                    }
                } else {
                    None
                }
            },
        }
    }
}

// ---------------------------------------------------------------------------
// The token-retrieval policy
// ---------------------------------------------------------------------------
/// What has just happened while resolving credentials.
pub enum TokenEvent {
    /// Resolution begins.
    Started,
    /// The credential store held a pair.
    Loaded(Tokens),
    /// The credential store held nothing readable.
    LoadFailed,
    /// The provider exchanged the refresh token for a fresh pair.
    Refreshed(Tokens),
    /// The provider rejected the refresh token.
    RefreshFailed,
    /// Interactive consent produced a fresh pair.
    LoggedIn(Tokens),
    /// Interactive consent failed.
    LoginFailed,
}

/// What the policy asks for next.
pub enum TokenAction {
    /// Read the stored pair.
    Load,
    /// Exchange this pair's refresh token for a fresh pair.
    Refresh(Tokens),
    /// Run the interactive consent flow.
    Login,
    /// Resolution is complete with this pair.
    Finish(Tokens),
    /// Resolution has failed; there is no further fallback.
    Fail,
}

/// The policy: load, then refresh what was loaded, and fall back to a fresh
/// interactive login when the store is empty, the loaded pair carries no
/// refresh token, or the provider rejects the refresh; a failed login is
/// terminal.
pub open spec fn spec_next_action(e: TokenEvent) -> TokenAction {
    match e {
        TokenEvent::Started => TokenAction::Load,
        TokenEvent::Loaded(t) => if t.refresh_token is Some {
            TokenAction::Refresh(t)
        } else {
            TokenAction::Login
        },
        TokenEvent::LoadFailed => TokenAction::Login,
        TokenEvent::Refreshed(t) => TokenAction::Finish(t),
        TokenEvent::RefreshFailed => TokenAction::Login,
        TokenEvent::LoggedIn(t) => TokenAction::Finish(t),
        TokenEvent::LoginFailed => TokenAction::Fail,
    }
}

/// One decision step of token retrieval: from what has just happened to
/// what to do next. The caller performs the returned action and reports
/// its outcome as the next event, starting from `Started`.
pub fn retrieve_tokens(event: TokenEvent) -> (a: TokenAction)
    ensures
        a == spec_next_action(event),
{
    match event {
        TokenEvent::Started => TokenAction::Load,
        TokenEvent::Loaded(t) => {
            if t.refresh_token.is_some() {
                TokenAction::Refresh(t)
            } else {
                TokenAction::Login
            }
        },
        TokenEvent::LoadFailed => TokenAction::Login,
        TokenEvent::Refreshed(t) => TokenAction::Finish(t),
        TokenEvent::RefreshFailed => TokenAction::Login,
        TokenEvent::LoggedIn(t) => TokenAction::Finish(t),
        TokenEvent::LoginFailed => TokenAction::Fail,
    }
}

/// A rejected refresh falls back to the interactive consent flow; it is
/// never surfaced as the final failure and never ends the run by itself.
pub proof fn lemma_refresh_failure_falls_back()
    ensures
        spec_next_action(TokenEvent::RefreshFailed) == TokenAction::Login,
        spec_next_action(TokenEvent::RefreshFailed) != TokenAction::Fail,
{
}

} // verus!
