use vstd::prelude::*;
use vstd::string::*;
use crate::value::{Value, vview, vview_elems, vview_membs, lemma_vview_elems_snoc,
    lemma_vview_membs_snoc, string_from_chars, char_from_u32};
use crate::model::{is_ws, is_digit, hex_val, unescape_char, scan_digits, scan_frac, scan_exp,
    sp_number_end, is_num_token, sp_string, sp_hex4, sp_value, sp_elems, sp_membs, sp_json,
    skip_ws, wf_jval, jdepth, MAX_DEPTH};

verus! {

/// The failure of a parse: the text does not denote a single JSON value,
/// or its nesting exceeds the accepted depth.
#[derive(Debug)]
pub struct ParseError {
    pub msg: String,
}

impl ParseError {
    /// The human-readable description of the failure.
    pub fn message(&self) -> (r: &str)
        ensures
            r@ == self.msg@,
    {
        self.msg.as_str()
    }
}

fn perr(m: &str) -> (r: ParseError) {
    ParseError { msg: String::from_str(m) }
}

/// The characters of a text, for index-based scanning.
fn str_chars(t: &str) -> (r: Vec<char>)
    ensures
        r@ == t@,
{
    let n = t.unicode_len();
    let mut r: Vec<char> = Vec::new();
    let mut k: usize = 0;
    while k < n
        invariant
            k <= n,
            n == t@.len(),
            r@ == t@.subrange(0, k as int),
        decreases n - k,
    {
        r.push(t.get_char(k));
        proof {
            assert(r@ =~= t@.subrange(0, k as int + 1));
        }
        k = k + 1;
    }
    proof {
        assert(t@.subrange(0, t@.len() as int) =~= t@);
    }
    r
}

fn is_ws_x(c: char) -> (r: bool)
    ensures
        r == is_ws(c),
{
    c == ' ' || c == '\t' || c == '\n' || c == '\r'
}

fn is_digit_x(c: char) -> (r: bool)
    ensures
        r == is_digit(c),
{
    let u = c as u32;
    48 <= u && u <= 57
}

fn skip_ws_x(s: &Vec<char>, i: usize) -> (j: usize)
    requires
        i <= s@.len(),
    ensures
        j as int == skip_ws(s@, i as int),
        i <= j <= s@.len(),
{
    let mut j = i;
    while j < s.len() && is_ws_x(s[j])
        invariant
            i <= j <= s@.len(),
            skip_ws(s@, i as int) == skip_ws(s@, j as int),
        decreases s@.len() - j,
    {
        j = j + 1;
    }
    j
}

fn scan_digits_x(s: &Vec<char>, i: usize) -> (j: usize)
    requires
        i <= s@.len(),
    ensures
        j as int == scan_digits(s@, i as int),
        i <= j <= s@.len(),
{
    let mut j = i;
    while j < s.len() && is_digit_x(s[j])
        invariant
            i <= j <= s@.len(),
            scan_digits(s@, i as int) == scan_digits(s@, j as int),
        decreases s@.len() - j,
    {
        j = j + 1;
    }
    j
}

/// The end of the number token starting at `i`, when one does.
fn p_number_end(s: &Vec<char>, i: usize) -> (r: Option<usize>)
    requires
        i <= s@.len(),
    ensures
        match r {
            Some(j) => sp_number_end(s@, i as int) == Some(j as int) && i <= j <= s@.len(),
            None => sp_number_end(s@, i as int) is None,
        },
{
    let j0 = if i < s.len() && s[i] == '-' {
        i + 1
    } else {
        i
    };
    if !(j0 < s.len() && is_digit_x(s[j0])) {
        return None;
    }
    let j1 = if s[j0] == '0' {
        j0 + 1
    } else {
        scan_digits_x(s, j0)
    };
    // fraction
    let j2 = if j1 < s.len() && s[j1] == '.' {
        let jf = scan_digits_x(s, j1 + 1);
        if jf == j1 + 1 {
            return None;
        }
        jf
    } else {
        j1
    };
    proof {
        assert(scan_frac(s@, j1 as int) == Some(j2 as int));
    }
    // exponent
    let j3 = if j2 < s.len() && (s[j2] == 'e' || s[j2] == 'E') {
        let k = if j2 + 1 < s.len() && (s[j2 + 1] == '+' || s[j2 + 1] == '-') {
            j2 + 2
        } else {
            j2 + 1
        };
        let je = scan_digits_x(s, k);
        if je == k {
            return None;
        }
        je
    } else {
        j2
    };
    proof {
        assert(scan_exp(s@, j2 as int) == Some(j3 as int));
    }
    Some(j3)
}

/// Whether a text is one well-formed number token.
pub fn num_token_ok(t: &str) -> (r: bool)
    ensures
        r == is_num_token(t@),
{
    let cs = str_chars(t);
    match p_number_end(&cs, 0) {
        Some(j) => j == cs.len(),
        None => false,
    }
}

fn hex_val_x(c: char) -> (r: Option<u32>)
    ensures
        r == hex_val(c),
{
    let u = c as u32;
    if 48 <= u && u <= 57 {
        Some(u - 48)
    } else if 97 <= u && u <= 102 {
        Some(u - 87)
    } else if 65 <= u && u <= 70 {
        Some(u - 55)
    } else {
        None
    }
}

fn p_hex4(s: &Vec<char>, i: usize) -> (r: Option<u32>)
    requires
        i <= s@.len(),
    ensures
        r == sp_hex4(s@, i as int),
        r matches Some(u) ==> u < 0x10000,
{
    if s.len() < 4 || i > s.len() - 4 {
        return None;
    }
    let (a, b) = (hex_val_x(s[i]), hex_val_x(s[i + 1]));
    let (c, d) = (hex_val_x(s[i + 2]), hex_val_x(s[i + 3]));
    match (a, b, c, d) {
        (Some(a), Some(b), Some(c), Some(d)) => Some(a * 4096 + b * 256 + c * 16 + d),
        _ => None,
    }
}

/// The content and end of the string literal whose opening quote stands
/// just before `i`.
fn p_string(s: &Vec<char>, i: usize) -> (r: Result<(String, usize), ParseError>)
    requires
        i <= s@.len(),
    ensures
        match r {
            Ok((cs, j)) => sp_string(s@, i as int, Seq::empty()) == Some((cs@, j as int)) && i <= j
                <= s@.len(),
            Err(_) => sp_string(s@, i as int, Seq::empty()) is None,
        },
{
    let mut cur = i;
    let mut acc: Vec<char> = Vec::new();
    loop
        invariant
            i <= cur <= s@.len(),
            sp_string(s@, i as int, Seq::empty()) == sp_string(s@, cur as int, acc@),
        decreases s@.len() - cur,
    {
        if cur >= s.len() {
            return Err(perr("unterminated string"));
        }
        let c = s[cur];
        if c == '"' {
            return Ok((string_from_chars(&acc), cur + 1));
        } else if c == '\\' {
            if cur + 1 >= s.len() {
                return Err(perr("unterminated escape"));
            }
            let e = s[cur + 1];
            if e == 'u' {
                match p_hex4(s, cur + 2) {
                    None => {
                        return Err(perr("malformed \\u escape"));
                    },
                    Some(u) => {
                        if 0xD800 <= u && u < 0xDC00 {
                            if s.len() >= 12 && cur <= s.len() - 12 && s[cur + 6] == '\\' && s[cur + 7] == 'u' {
                                match p_hex4(s, cur + 8) {
                                    None => {
                                        return Err(perr("malformed \\u escape"));
                                    },
                                    Some(u2) => {
                                        if 0xDC00 <= u2 && u2 < 0xE000 {
                                            let cp = 0x10000 + (u - 0xD800) * 0x400 + (u2 - 0xDC00);
                                            match char_from_u32(cp) {
                                                Some(ch) => {
                                                    proof {
                                                        vstd::utf8::char_u32_cast(ch, cp);
                                                    }
                                                    acc.push(ch);
                                                    cur = cur + 12;
                                                },
                                                None => {
                                                    // unreachable: the code point is a scalar
                                                    return Err(perr("malformed \\u escape"));
                                                },
                                            }
                                        } else {
                                            return Err(perr("unpaired surrogate"));
                                        }
                                    },
                                }
                            } else {
                                return Err(perr("unpaired surrogate"));
                            }
                        } else if 0xDC00 <= u && u < 0xE000 {
                            return Err(perr("unpaired surrogate"));
                        } else {
                            match char_from_u32(u) {
                                Some(ch) => {
                                    proof {
                                        vstd::utf8::char_u32_cast(ch, u);
                                    }
                                    acc.push(ch);
                                    cur = cur + 6;
                                },
                                None => {
                                    // unreachable: surrogates were ruled out above
                                    return Err(perr("malformed \\u escape"));
                                },
                            }
                        }
                    },
                }
            } else {
                let c2 = if e == '"' {
                    Some('"')
                } else if e == '\\' {
                    Some('\\')
                } else if e == '/' {
                    Some('/')
                } else if e == 'n' {
                    Some('\n')
                } else if e == 't' {
                    Some('\t')
                } else if e == 'r' {
                    Some('\r')
                } else if e == 'b' {
                    char_from_u32(8)
                } else if e == 'f' {
                    char_from_u32(12)
                } else {
                    None
                };
                proof {
                    if let Some(cc) = c2 {
                        vstd::utf8::char_u32_cast(cc, cc as u32);
                    }
                    assert(c2 == unescape_char(e));
                }
                match c2 {
                    None => {
                        return Err(perr("unknown escape"));
                    },
                    Some(ch) => {
                        acc.push(ch);
                        cur = cur + 2;
                    },
                }
            }
        } else if (c as u32) < 32 {
            return Err(perr("control character in string"));
        } else {
            acc.push(c);
            cur = cur + 1;
        }
    }
}

/// The value starting at `i` (no leading whitespace) and the index just
/// past it; `d` is the remaining nesting budget.
fn p_value(s: &Vec<char>, i: usize, d: u32) -> (r: Result<(Value, usize), ParseError>)
    requires
        i <= s@.len(),
    ensures
        match r {
            Ok((v, j)) => sp_value(s@, i as int, d as nat) == Some((vview(v), j as int)) && i <= j
                <= s@.len(),
            Err(_) => sp_value(s@, i as int, d as nat) is None,
        },
    decreases d, s@.len() - i, 0int,
{
    if i >= s.len() {
        return Err(perr("unexpected end of input"));
    }
    let c = s[i];
    if c == 'n' {
        if s.len() - i >= 4 && s[i + 1] == 'u' && s[i + 2] == 'l' && s[i + 3] == 'l' {
            Ok((Value::Null, i + 4))
        } else {
            Err(perr("malformed literal"))
        }
    } else if c == 't' {
        if s.len() - i >= 4 && s[i + 1] == 'r' && s[i + 2] == 'u' && s[i + 3] == 'e' {
            Ok((Value::Bool(true), i + 4))
        } else {
            Err(perr("malformed literal"))
        }
    } else if c == 'f' {
        if s.len() - i >= 5 && s[i + 1] == 'a' && s[i + 2] == 'l' && s[i + 3] == 's' && s[i + 4]
            == 'e' {
            Ok((Value::Bool(false), i + 5))
        } else {
            Err(perr("malformed literal"))
        }
    } else if c == '"' {
        match p_string(s, i + 1) {
            Ok((cs, j)) => Ok((Value::Str(cs), j)),
            Err(e) => Err(e),
        }
    } else if c == '[' {
        if d == 0 {
            return Err(perr("nesting too deep"));
        }
        let j = skip_ws_x(s, i + 1);
        if j < s.len() && s[j] == ']' {
            let es: Vec<Value> = Vec::new();
            proof {
                assert(vview_elems(es@) =~= Seq::<crate::value::JVal>::empty());
            }
            Ok((Value::Arr(es), j + 1))
        } else {
            p_elems(s, j, d - 1)
        }
    } else if c == '{' {
        if d == 0 {
            return Err(perr("nesting too deep"));
        }
        let j = skip_ws_x(s, i + 1);
        if j < s.len() && s[j] == '}' {
            let ms: Vec<(String, Value)> = Vec::new();
            proof {
                assert(vview_membs(ms@) =~= Seq::<(Seq<char>, crate::value::JVal)>::empty());
            }
            Ok((Value::Obj(ms), j + 1))
        } else {
            p_membs(s, j, d - 1)
        }
    } else if c == '-' || is_digit_x(c) {
        match p_number_end(s, i) {
            None => Err(perr("malformed number")),
            Some(j) => {
                let mut tok: Vec<char> = Vec::new();
                let mut k = i;
                while k < j
                    invariant
                        i <= k <= j <= s@.len(),
                        tok@ == s@.subrange(i as int, k as int),
                    decreases j - k,
                {
                    tok.push(s[k]);
                    proof {
                        assert(tok@ =~= s@.subrange(i as int, k as int + 1));
                    }
                    k = k + 1;
                }
                Ok((Value::Num(string_from_chars(&tok)), j))
            },
        }
    } else {
        Err(perr("unexpected character"))
    }
}

/// The remaining elements of an array whose next element starts at `i`,
/// the closing `]` included.
fn p_elems(s: &Vec<char>, i: usize, d: u32) -> (r: Result<(Value, usize), ParseError>)
    requires
        i <= s@.len(),
    ensures
        match r {
            Ok((v, j)) => sp_elems(s@, i as int, d as nat, Seq::empty()) == Some((
                vview(v),
                j as int,
            )) && i <= j <= s@.len(),
            Err(_) => sp_elems(s@, i as int, d as nat, Seq::empty()) is None,
        },
    decreases d, s@.len() - i, 1int,
{
    let mut cur = i;
    let mut acc: Vec<Value> = Vec::new();
    proof {
        assert(vview_elems(acc@) =~= Seq::<crate::value::JVal>::empty());
    }
    loop
        invariant
            i <= cur <= s@.len(),
            sp_elems(s@, i as int, d as nat, Seq::empty()) == sp_elems(
                s@,
                cur as int,
                d as nat,
                vview_elems(acc@),
            ),
        decreases s@.len() - cur,
    {
        match p_value(s, cur, d) {
            Err(e) => {
                return Err(e);
            },
            Ok((v, j)) => {
                if j <= cur {
                    return Err(perr("malformed array"));
                }
                let k = skip_ws_x(s, j);
                if k < s.len() && s[k] == ',' {
                    let m = skip_ws_x(s, k + 1);
                    if m <= cur {
                        return Err(perr("malformed array"));
                    }
                    proof {
                        lemma_vview_elems_snoc(acc@, v);
                    }
                    acc.push(v);
                    cur = m;
                } else if k < s.len() && s[k] == ']' {
                    proof {
                        lemma_vview_elems_snoc(acc@, v);
                    }
                    acc.push(v);
                    return Ok((Value::Arr(acc), k + 1));
                } else {
                    return Err(perr("expected ',' or ']'"));
                }
            },
        }
    }
}

/// The remaining members of an object whose next key starts at `i`,
/// the closing `}` included.
fn p_membs(s: &Vec<char>, i: usize, d: u32) -> (r: Result<(Value, usize), ParseError>)
    requires
        i <= s@.len(),
    ensures
        match r {
            Ok((v, j)) => sp_membs(s@, i as int, d as nat, Seq::empty()) == Some((
                vview(v),
                j as int,
            )) && i <= j <= s@.len(),
            Err(_) => sp_membs(s@, i as int, d as nat, Seq::empty()) is None,
        },
    decreases d, s@.len() - i, 1int,
{
    let mut cur = i;
    let mut acc: Vec<(String, Value)> = Vec::new();
    proof {
        assert(vview_membs(acc@) =~= Seq::<(Seq<char>, crate::value::JVal)>::empty());
    }
    loop
        invariant
            i <= cur <= s@.len(),
            sp_membs(s@, i as int, d as nat, Seq::empty()) == sp_membs(
                s@,
                cur as int,
                d as nat,
                vview_membs(acc@),
            ),
        decreases s@.len() - cur,
    {
        if !(cur < s.len() && s[cur] == '"') {
            return Err(perr("expected object key"));
        }
        match p_string(s, cur + 1) {
            Err(e) => {
                return Err(e);
            },
            Ok((key, j)) => {
                let k = skip_ws_x(s, j);
                if !(k < s.len() && s[k] == ':') {
                    return Err(perr("expected ':'"));
                }
                let m = skip_ws_x(s, k + 1);
                if m < cur {
                    return Err(perr("malformed object"));
                }
                match p_value(s, m, d) {
                    Err(e) => {
                        return Err(e);
                    },
                    Ok((v, j2)) => {
                        if j2 <= cur {
                            return Err(perr("malformed object"));
                        }
                        let k2 = skip_ws_x(s, j2);
                        if k2 < s.len() && s[k2] == ',' {
                            let m2 = skip_ws_x(s, k2 + 1);
                            if m2 <= cur {
                                return Err(perr("malformed object"));
                            }
                            proof {
                                lemma_vview_membs_snoc(acc@, (key, v));
                            }
                            acc.push((key, v));
                            cur = m2;
                        } else if k2 < s.len() && s[k2] == '}' {
                            proof {
                                lemma_vview_membs_snoc(acc@, (key, v));
                            }
                            acc.push((key, v));
                            return Ok((Value::Obj(acc), k2 + 1));
                        } else {
                            return Err(perr("expected ',' or '}'"));
                        }
                    },
                }
            },
        }
    }
}

/// Parse a JSON text: one value, whitespace allowed around it, nothing
/// after it. Member order and duplicate keys of objects are kept exactly
/// as encountered; number tokens are kept verbatim. Fails exactly when
/// the grammar (`crate::model::sp_json`) assigns the text no value, the
/// depth bound included.
pub fn parse(text: &str) -> (r: Result<Value, ParseError>)
    ensures
        match r {
            Ok(v) => sp_json(text@) == Some(vview(v)) && wf_jval(vview(v)) && jdepth(
                vview(v),
            ) <= MAX_DEPTH as nat,
            Err(_) => sp_json(text@) is None,
        },
{
    proof {
        crate::laws::lemma_round_trip_of_text(text@);
    }
    let cs = str_chars(text);
    let i = skip_ws_x(&cs, 0);
    match p_value(&cs, i, MAX_DEPTH) {
        Err(e) => Err(e),
        Ok((v, j)) => {
            let k = skip_ws_x(&cs, j);
            if k == cs.len() {
                Ok(v)
            } else {
                Err(perr("trailing characters after value"))
            }
        },
    }
}

} // verus!
