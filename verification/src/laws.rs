use vstd::prelude::*;
use crate::value::JVal;
use crate::model::{is_ws, is_digit, hex_val, hex_digit, unescape_char, esc_char, escape,
    scan_digits, scan_frac, scan_exp, sp_number_end, is_num_token, sp_string, sp_hex4, sp_value,
    sp_elems, sp_membs, sp_json, skip_ws, ser, ser_elems, ser_memb, ser_membs, wf_jval, wf_elems,
    wf_membs, jdepth, jdepth_elems, jdepth_membs, MAX_DEPTH};

verus! {

/// `t` stands verbatim in `s` at position `i`.
pub open spec fn placed(s: Seq<char>, i: int, t: Seq<char>) -> bool {
    0 <= i && i + t.len() <= s.len() && s.subrange(i, i + t.len() as int) == t
}

/// What may follow a value in compact text: a separator, a closer, or the
/// end of the text.
pub open spec fn delim_at(s: Seq<char>, p: int) -> bool {
    p == s.len() || s[p] == ',' || s[p] == ']' || s[p] == '}'
}

proof fn lemma_placed_index(s: Seq<char>, i: int, t: Seq<char>, a: int)
    requires
        placed(s, i, t),
        0 <= a < t.len(),
    ensures
        s[i + a] == t[a],
{
    assert(s.subrange(i, i + t.len() as int)[a] == t[a]);
}

proof fn lemma_placed_concat(s: Seq<char>, i: int, x: Seq<char>, y: Seq<char>)
    requires
        placed(s, i, x + y),
    ensures
        placed(s, i, x),
        placed(s, i + x.len(), y),
{
    assert forall|a: int| 0 <= a < x.len() implies s.subrange(i, i + x.len() as int)[a] == x[
        a
    ] by {
        assert(s.subrange(i, i + (x + y).len() as int)[a] == (x + y)[a]);
    }
    assert(s.subrange(i, i + x.len() as int) =~= x);
    assert forall|a: int|
        0 <= a < y.len() implies s.subrange(i + x.len(), i + x.len() + y.len() as int)[a] == y[
        a
    ] by {
        assert(s.subrange(i, i + (x + y).len() as int)[x.len() + a] == (x + y)[x.len() + a]);
    }
    assert(s.subrange(i + x.len(), i + x.len() + y.len() as int) =~= y);
}

proof fn lemma_scan_digits_at(s: Seq<char>, i: int, t: Seq<char>, a: int)
    requires
        placed(s, i, t),
        delim_at(s, i + t.len()),
        0 <= a <= t.len(),
    ensures
        scan_digits(s, i + a) == i + scan_digits(t, a),
        a <= scan_digits(t, a) <= t.len(),
    decreases t.len() - a,
{
    if a < t.len() {
        lemma_placed_index(s, i, t, a);
        if is_digit(t[a]) {
            lemma_scan_digits_at(s, i, t, a + 1);
        }
    }
}

proof fn lemma_frac_at(s: Seq<char>, i: int, t: Seq<char>, a: int)
    requires
        placed(s, i, t),
        delim_at(s, i + t.len()),
        0 <= a <= t.len(),
        scan_frac(t, a) is Some,
    ensures
        scan_frac(s, i + a) == Some(i + scan_frac(t, a)->0),
        a <= scan_frac(t, a)->0 <= t.len(),
{
    let n = t.len() as int;
    if a < n && t[a] == '.' {
        lemma_placed_index(s, i, t, a);
        lemma_scan_digits_at(s, i, t, a + 1);
    } else {
        if a < n {
            lemma_placed_index(s, i, t, a);
        }
    }
}

proof fn lemma_exp_at(s: Seq<char>, i: int, t: Seq<char>, a: int)
    requires
        placed(s, i, t),
        delim_at(s, i + t.len()),
        0 <= a <= t.len(),
        scan_exp(t, a) is Some,
    ensures
        scan_exp(s, i + a) == Some(i + scan_exp(t, a)->0),
        a <= scan_exp(t, a)->0 <= t.len(),
{
    let n = t.len() as int;
    if a < n && (t[a] == 'e' || t[a] == 'E') {
        lemma_placed_index(s, i, t, a);
        let kt = if a + 1 < n && (t[a + 1] == '+' || t[a + 1] == '-') {
            a + 2
        } else {
            a + 1
        };
        assert(kt <= n);
        lemma_scan_digits_at(s, i, t, kt);
        let jt = scan_digits(t, kt);
        assert(jt != kt);  // else scan_exp(t, a) were None
        assert(kt < n);
        assert(a + 1 < n);
        lemma_placed_index(s, i, t, a + 1);
        assert(scan_exp(s, i + a) == Some(i + jt));
    } else {
        if a < n {
            lemma_placed_index(s, i, t, a);
        }
    }
}

/// A well-formed number token put into a longer text, followed by a
/// delimiter, is scanned there whole: nothing less, nothing more.
proof fn lemma_number_at(s: Seq<char>, i: int, t: Seq<char>)
    requires
        placed(s, i, t),
        delim_at(s, i + t.len()),
        is_num_token(t),
    ensures
        sp_number_end(s, i) == Some(i + t.len() as int),
{
    let n = t.len() as int;
    assert(sp_number_end(t, 0) == Some(n));
    let j0t = if 0 < n && t[0] == '-' {
        1int
    } else {
        0int
    };
    assert(0 <= j0t && j0t < n && is_digit(t[j0t]));
    lemma_placed_index(s, i, t, 0);
    lemma_placed_index(s, i, t, j0t);
    let j1t = if t[j0t] == '0' {
        j0t + 1
    } else {
        scan_digits(t, j0t)
    };
    lemma_scan_digits_at(s, i, t, j0t);
    assert(j0t <= j1t <= n);
    assert(scan_frac(t, j1t) is Some);
    lemma_frac_at(s, i, t, j1t);
    let j2t = scan_frac(t, j1t)->0;
    assert(scan_exp(t, j2t) is Some);
    lemma_exp_at(s, i, t, j2t);
    assert(scan_exp(t, j2t)->0 == n);
    assert(sp_number_end(s, i) == Some(i + n));
}

/// The first character of the compact text of a well-formed value: never
/// whitespace, never a separator or closer.
proof fn lemma_ser_first(jv: JVal)
    requires
        wf_jval(jv),
    ensures
        ser(jv).len() > 0,
        !is_ws(ser(jv)[0]),
        ser(jv)[0] != ']',
        ser(jv)[0] != '}',
        ser(jv)[0] != ',',
        ser(jv)[0] != ':',
{
    match jv {
        JVal::Num(t) => {
            assert(sp_number_end(t, 0) == Some(t.len() as int));
            assert(t.len() > 0);
            assert(t[0] == '-' || is_digit(t[0]));
        },
        JVal::Str(cs) => {
            assert(ser(jv)[0] == '"');
        },
        _ => {},
    }
}

proof fn lemma_hex_round(n: u32)
    requires
        n < 16,
    ensures
        hex_val(hex_digit(n)) == Some(n),
{
}

/// An escaped string body put into a longer text, with the closing quote
/// after it, is read back as exactly the characters that were escaped.
#[verifier::rlimit(80)]
proof fn lemma_string_at(s: Seq<char>, i: int, cs: Seq<char>, acc: Seq<char>)
    requires
        placed(s, i, escape(cs) + seq!['"']),
    ensures
        sp_string(s, i, acc) == Some((acc + cs, i + escape(cs).len() + 1)),
    decreases cs.len(),
{
    lemma_placed_concat(s, i, escape(cs), seq!['"']);
    lemma_placed_index(s, i + escape(cs).len(), seq!['"'], 0);
    if cs.len() == 0 {
        assert(escape(cs) == Seq::<char>::empty());
        assert(s[i] == '"');
        assert(acc + cs =~= acc);
    } else {
        let c = cs[0];
        let cs2 = cs.subrange(1, cs.len() as int);
        let e = esc_char(c);
        assert(escape(cs) == e + escape(cs2));
        assert((e + escape(cs2)) + seq!['"'] =~= e + (escape(cs2) + seq!['"']));
        lemma_placed_concat(s, i, e, escape(cs2) + seq!['"']);
        let p = i + e.len();
        lemma_string_at(s, p, cs2, acc.push(c));
        assert(acc.push(c) + cs2 =~= acc + cs);
        if c == '"' {
            lemma_placed_index(s, i, e, 0);
            lemma_placed_index(s, i, e, 1);
            assert(sp_string(s, i, acc) == sp_string(s, i + 2, acc.push(c)));
        } else if c == '\\' {
            lemma_placed_index(s, i, e, 0);
            lemma_placed_index(s, i, e, 1);
            assert(sp_string(s, i, acc) == sp_string(s, i + 2, acc.push(c)));
        } else if c == '\n' {
            lemma_placed_index(s, i, e, 0);
            lemma_placed_index(s, i, e, 1);
            assert(sp_string(s, i, acc) == sp_string(s, i + 2, acc.push(c)));
        } else if c == '\t' {
            lemma_placed_index(s, i, e, 0);
            lemma_placed_index(s, i, e, 1);
            assert(sp_string(s, i, acc) == sp_string(s, i + 2, acc.push(c)));
        } else if c == '\r' {
            lemma_placed_index(s, i, e, 0);
            lemma_placed_index(s, i, e, 1);
            assert(sp_string(s, i, acc) == sp_string(s, i + 2, acc.push(c)));
        } else if c as u32 == 8 {
            lemma_placed_index(s, i, e, 0);
            lemma_placed_index(s, i, e, 1);
            vstd::utf8::char_u32_cast(c, 8);
            assert(unescape_char('b') == Some(c));
            assert(sp_string(s, i, acc) == sp_string(s, i + 2, acc.push(c)));
        } else if c as u32 == 12 {
            lemma_placed_index(s, i, e, 0);
            lemma_placed_index(s, i, e, 1);
            vstd::utf8::char_u32_cast(c, 12);
            assert(unescape_char('f') == Some(c));
            assert(sp_string(s, i, acc) == sp_string(s, i + 2, acc.push(c)));
        } else if (c as u32) < 32 {
            let u = c as u32;
            assert(e =~= seq!['\\', 'u', '0', '0', hex_digit(u / 16), hex_digit(u % 16)]);
            lemma_placed_index(s, i, e, 0);
            lemma_placed_index(s, i, e, 1);
            lemma_placed_index(s, i, e, 2);
            lemma_placed_index(s, i, e, 3);
            lemma_placed_index(s, i, e, 4);
            lemma_placed_index(s, i, e, 5);
            lemma_hex_round(u / 16);
            lemma_hex_round(u % 16);
            assert(hex_val('0') == Some(0u32));
            assert(u / 16 * 16 + u % 16 == u);
            assert(sp_hex4(s, i + 2) == Some(u));
            vstd::utf8::char_u32_cast(c, u);
            assert((u as char) == c);
            assert(sp_string(s, i, acc) == sp_string(s, i + 6, acc.push(c)));
        } else {
            assert(e =~= seq![c]);
            lemma_placed_index(s, i, e, 0);
            assert(sp_string(s, i, acc) == sp_string(s, i + 1, acc.push(c)));
        }
    }
}

/// A well-formed value's compact text, put into a longer text and followed
/// by a delimiter, parses there to exactly that value.
proof fn lemma_val_at(s: Seq<char>, i: int, d: nat, jv: JVal)
    requires
        wf_jval(jv),
        jdepth(jv) <= d,
        placed(s, i, ser(jv)),
        delim_at(s, i + ser(jv).len()),
    ensures
        sp_value(s, i, d) == Some((jv, i + ser(jv).len() as int)),
    decreases jv, 0int,
{
    lemma_ser_first(jv);
    lemma_placed_index(s, i, ser(jv), 0);
    match jv {
        JVal::Null => {
            lemma_placed_index(s, i, ser(jv), 1);
            lemma_placed_index(s, i, ser(jv), 2);
            lemma_placed_index(s, i, ser(jv), 3);
            assert(sp_value(s, i, d) == Some((jv, i + 4)));
        },
        JVal::Bool(b) => {
            lemma_placed_index(s, i, ser(jv), 1);
            lemma_placed_index(s, i, ser(jv), 2);
            lemma_placed_index(s, i, ser(jv), 3);
            if !b {
                lemma_placed_index(s, i, ser(jv), 4);
            }
            assert(sp_value(s, i, d) == Some((jv, i + ser(jv).len() as int)));
        },
        JVal::Num(t) => {
            lemma_number_at(s, i, t);
            assert(s.subrange(i, i + t.len() as int) == t);
            assert(sp_value(s, i, d) == Some((jv, i + t.len() as int)));
        },
        JVal::Str(cs) => {
            assert(ser(jv) =~= seq!['"'] + (escape(cs) + seq!['"']));
            lemma_placed_concat(s, i, seq!['"'], escape(cs) + seq!['"']);
            lemma_string_at(s, i + 1, cs, Seq::empty());
            assert(Seq::empty() + cs =~= cs);
            assert(sp_value(s, i, d) == Some((jv, i + ser(jv).len() as int)));
        },
        JVal::Arr(es) => {
            assert(jdepth(jv) == 1 + jdepth_elems(es));
            assert(d >= 1);
            if es.len() == 0 {
                assert(ser_elems(es) == Seq::<char>::empty());
                assert(ser(jv) =~= seq!['[', ']']);
                lemma_placed_index(s, i, ser(jv), 1);
                assert(skip_ws(s, i + 1) == i + 1);
                assert(sp_value(s, i, d) == Some((jv, i + 2)));
            } else {
                assert(ser(jv) =~= seq!['['] + (ser_elems(es) + seq![']']));
                lemma_placed_concat(s, i, seq!['['], ser_elems(es) + seq![']']);
                lemma_placed_concat(s, i + 1, ser_elems(es), seq![']']);
                lemma_placed_index(s, i + 1 + ser_elems(es).len(), seq![']'], 0);
                assert(wf_jval(es[0]));
                lemma_ser_first(es[0]);
                let tail = es.subrange(1, es.len() as int);
                if es.len() == 1 {
                    assert(ser_elems(es) == ser(es[0]));
                } else {
                    assert(ser_elems(es) == ser(es[0]) + seq![','] + ser_elems(tail));
                    assert((ser(es[0]) + seq![','] + ser_elems(tail))[0] == ser(es[0])[0]);
                }
                assert(ser_elems(es)[0] == ser(es[0])[0]);
                lemma_placed_index(s, i + 1, ser_elems(es), 0);
                assert(!is_ws(s[i + 1]) && s[i + 1] != ']');
                assert(skip_ws(s, i + 1) == i + 1);
                lemma_elems_at(s, i + 1, (d - 1) as nat, Seq::empty(), es);
                assert(Seq::empty() + es =~= es);
                assert(sp_value(s, i, d) == Some((jv, i + ser(jv).len() as int)));
            }
        },
        JVal::Obj(ms) => {
            assert(jdepth(jv) == 1 + jdepth_membs(ms));
            assert(d >= 1);
            if ms.len() == 0 {
                assert(ser_membs(ms) == Seq::<char>::empty());
                assert(ser(jv) =~= seq!['{', '}']);
                lemma_placed_index(s, i, ser(jv), 1);
                assert(skip_ws(s, i + 1) == i + 1);
                assert(sp_value(s, i, d) == Some((jv, i + 2)));
            } else {
                assert(ser(jv) =~= seq!['{'] + (ser_membs(ms) + seq!['}']));
                lemma_placed_concat(s, i, seq!['{'], ser_membs(ms) + seq!['}']);
                lemma_placed_concat(s, i + 1, ser_membs(ms), seq!['}']);
                lemma_placed_index(s, i + 1 + ser_membs(ms).len(), seq!['}'], 0);
                let tail = ms.subrange(1, ms.len() as int);
                if ms.len() == 1 {
                    assert(ser_membs(ms) == ser_memb(ms[0]));
                } else {
                    assert(ser_membs(ms) == ser_memb(ms[0]) + seq![','] + ser_membs(tail));
                    assert((ser_memb(ms[0]) + seq![','] + ser_membs(tail))[0] == ser_memb(
                        ms[0],
                    )[0]);
                }
                assert(ser_memb(ms[0])[0] == '"');
                assert(ser_membs(ms)[0] == '"');
                lemma_placed_index(s, i + 1, ser_membs(ms), 0);
                assert(!is_ws(s[i + 1]) && s[i + 1] != '}');
                assert(skip_ws(s, i + 1) == i + 1);
                lemma_membs_at(s, i + 1, (d - 1) as nat, Seq::empty(), ms);
                assert(Seq::empty() + ms =~= ms);
                assert(sp_value(s, i, d) == Some((jv, i + ser(jv).len() as int)));
            }
        },
    }
}

/// The compact texts of one or more array elements, comma-separated and
/// followed by `]`, parse to exactly those elements appended to `acc`.
proof fn lemma_elems_at(s: Seq<char>, i: int, d: nat, acc: Seq<JVal>, es: Seq<JVal>)
    requires
        es.len() > 0,
        wf_elems(es),
        jdepth_elems(es) <= d,
        placed(s, i, ser_elems(es)),
        i + ser_elems(es).len() < s.len(),
        s[i + ser_elems(es).len()] == ']',
    ensures
        sp_elems(s, i, d, acc) == Some((JVal::Arr(acc + es), i + ser_elems(es).len() + 1)),
    decreases es, 1int,
{
    let e0 = es[0];
    assert(wf_jval(e0));
    assert(jdepth(e0) <= d);
    lemma_ser_first(e0);
    if es.len() == 1 {
        assert(ser_elems(es) == ser(e0));
        lemma_val_at(s, i, d, e0);
        let j = i + ser(e0).len();
        assert(skip_ws(s, j) == j);
        assert(acc.push(e0) =~= acc + es);
        assert(sp_elems(s, i, d, acc) == Some((JVal::Arr(acc + es), j + 1)));
    } else {
        let tail = es.subrange(1, es.len() as int);
        assert(ser_elems(es) == ser(e0) + seq![','] + ser_elems(tail));
        assert(ser(e0) + seq![','] + ser_elems(tail) =~= ser(e0) + (seq![','] + ser_elems(tail)));
        lemma_placed_concat(s, i, ser(e0), seq![','] + ser_elems(tail));
        lemma_placed_concat(s, i + ser(e0).len(), seq![','], ser_elems(tail));
        lemma_placed_index(s, i + ser(e0).len(), seq![','], 0);
        lemma_val_at(s, i, d, e0);
        let j = i + ser(e0).len();
        assert(skip_ws(s, j) == j);
        assert(wf_elems(tail));
        assert(jdepth_elems(tail) <= d);
        assert(wf_jval(tail[0]));
        lemma_ser_first(tail[0]);
        let tail2 = tail.subrange(1, tail.len() as int);
        if tail.len() == 1 {
            assert(ser_elems(tail) == ser(tail[0]));
        } else {
            assert(ser_elems(tail) == ser(tail[0]) + seq![','] + ser_elems(tail2));
            assert((ser(tail[0]) + seq![','] + ser_elems(tail2))[0] == ser(tail[0])[0]);
        }
        assert(ser_elems(tail)[0] == ser(tail[0])[0]);
        lemma_placed_index(s, j + 1, ser_elems(tail), 0);
        assert(!is_ws(s[j + 1]));
        assert(skip_ws(s, j + 1) == j + 1);
        lemma_elems_at(s, j + 1, d, acc.push(e0), tail);
        assert(acc.push(e0) + tail =~= acc + es);
        assert(sp_elems(s, i, d, acc) == Some((JVal::Arr(acc + es), i + ser_elems(es).len() + 1)));
    }
}

/// The compact texts of one or more object members, comma-separated and
/// followed by `}`, parse to exactly those members appended to `acc`.
proof fn lemma_membs_at(
    s: Seq<char>,
    i: int,
    d: nat,
    acc: Seq<(Seq<char>, JVal)>,
    ms: Seq<(Seq<char>, JVal)>,
)
    requires
        ms.len() > 0,
        wf_membs(ms),
        jdepth_membs(ms) <= d,
        placed(s, i, ser_membs(ms)),
        i + ser_membs(ms).len() < s.len(),
        s[i + ser_membs(ms).len()] == '}',
    ensures
        sp_membs(s, i, d, acc) == Some((JVal::Obj(acc + ms), i + ser_membs(ms).len() + 1)),
    decreases ms, 1int,
{
    let m0 = ms[0];
    assert(wf_jval(m0.1));
    assert(jdepth(m0.1) <= d);
    let key = m0.0;
    let mtext = ser_memb(m0);
    let rest_after_memb: Seq<char> = if ms.len() == 1 {
        Seq::empty()
    } else {
        seq![','] + ser_membs(ms.subrange(1, ms.len() as int))
    };
    if ms.len() == 1 {
        assert(ser_membs(ms) == mtext);
        assert(ser_membs(ms) =~= mtext + rest_after_memb);
    } else {
        assert(ser_membs(ms) == mtext + seq![','] + ser_membs(ms.subrange(1, ms.len() as int)));
        assert(ser_membs(ms) =~= mtext + rest_after_memb);
    }
    lemma_placed_concat(s, i, mtext, rest_after_memb);
    // split the member text itself
    assert(mtext =~= seq!['"'] + ((escape(key) + seq!['"']) + (seq![':'] + ser(m0.1))));
    lemma_placed_concat(s, i, seq!['"'], (escape(key) + seq!['"']) + (seq![':'] + ser(m0.1)));
    lemma_placed_index(s, i, seq!['"'], 0);
    lemma_placed_concat(s, i + 1, escape(key) + seq!['"'], seq![':'] + ser(m0.1));
    lemma_string_at(s, i + 1, key, Seq::empty());
    assert(Seq::empty() + key =~= key);
    let q = i + 1 + escape(key).len() + 1;
    lemma_placed_concat(s, q, seq![':'], ser(m0.1));
    lemma_placed_index(s, q, seq![':'], 0);
    assert(skip_ws(s, q) == q);
    lemma_ser_first(m0.1);
    let jv2 = q + 1 + ser(m0.1).len();
    assert(jv2 == i + mtext.len());
    if ms.len() == 1 {
        assert(s[jv2] == '}');
        lemma_val_at(s, q + 1, d, m0.1);
        assert(skip_ws(s, jv2) == jv2);
        assert(acc.push(m0) =~= acc + ms);
        assert(sp_membs(s, i, d, acc) == Some((JVal::Obj(acc + ms), jv2 + 1)));
    } else {
        let tail = ms.subrange(1, ms.len() as int);
        lemma_placed_concat(s, jv2, seq![','], ser_membs(tail));
        lemma_placed_index(s, jv2, seq![','], 0);
        lemma_val_at(s, q + 1, d, m0.1);
        assert(skip_ws(s, jv2) == jv2);
        assert(wf_membs(tail));
        assert(jdepth_membs(tail) <= d);
        let t0 = tail[0];
        let tail2 = tail.subrange(1, tail.len() as int);
        if tail.len() == 1 {
            assert(ser_membs(tail) == ser_memb(t0));
        } else {
            assert(ser_membs(tail) == ser_memb(t0) + seq![','] + ser_membs(tail2));
            assert((ser_memb(t0) + seq![','] + ser_membs(tail2))[0] == ser_memb(t0)[0]);
        }
        assert(ser_memb(t0)[0] == '"');
        assert(ser_membs(tail)[0] == '"');
        lemma_placed_index(s, jv2 + 1, ser_membs(tail), 0);
        assert(s[jv2 + 1] == '"');
        assert(skip_ws(s, jv2 + 1) == jv2 + 1);
        lemma_membs_at(s, jv2 + 1, d, acc.push(m0), tail);
        assert(acc.push(m0) + tail =~= acc + ms);
        assert(sp_membs(s, i, d, acc) == Some((JVal::Obj(acc + ms), i + ser_membs(ms).len() + 1)));
    }
}

proof fn lemma_scan_ge(s: Seq<char>, a: int)
    ensures
        scan_digits(s, a) >= a,
    decreases s.len() - a,
{
    if 0 <= a && a < s.len() && is_digit(s[a]) {
        lemma_scan_ge(s, a + 1);
    }
}

proof fn lemma_skip_ws_bounds(s: Seq<char>, a: int)
    requires
        0 <= a <= s.len(),
    ensures
        a <= skip_ws(s, a) <= s.len(),
    decreases s.len() - a,
{
    if a < s.len() && is_ws(s[a]) {
        lemma_skip_ws_bounds(s, a + 1);
    }
}

proof fn lemma_scan_digits_sub(s: Seq<char>, i: int, j: int, a: int)
    requires
        0 <= i <= a <= j <= s.len(),
        scan_digits(s, a) <= j,
    ensures
        scan_digits(s.subrange(i, j), a - i) == scan_digits(s, a) - i,
    decreases j - a,
{
    let t = s.subrange(i, j);
    lemma_scan_ge(s, a);
    if a < j {
        assert(t[a - i] == s[a]);
        if is_digit(s[a]) {
            assert(scan_digits(s, a) == scan_digits(s, a + 1));
            lemma_scan_digits_sub(s, i, j, a + 1);
        }
    }
}

/// A number token scanned out of a longer text is well formed on its own.
proof fn lemma_scan_le(s: Seq<char>, a: int)
    requires
        a <= s.len(),
    ensures
        scan_digits(s, a) <= s.len(),
    decreases s.len() - a,
{
    if 0 <= a && a < s.len() && is_digit(s[a]) {
        lemma_scan_le(s, a + 1);
    }
}

/// A number token scanned out of a longer text is well formed on its own.
proof fn lemma_number_restrict(s: Seq<char>, i: int, j: int)
    requires
        0 <= i,
        sp_number_end(s, i) == Some(j),
    ensures
        i < j <= s.len(),
        is_num_token(s.subrange(i, j)),
{
    let t = s.subrange(i, j);
    let j0 = if 0 <= i && i < s.len() && s[i] == '-' {
        i + 1
    } else {
        i
    };
    assert(0 <= j0 && j0 < s.len() && is_digit(s[j0]));
    let j1 = if s[j0] == '0' {
        j0 + 1
    } else {
        scan_digits(s, j0)
    };
    if s[j0] != '0' {
        assert(scan_digits(s, j0) == scan_digits(s, j0 + 1));
        lemma_scan_ge(s, j0 + 1);
        lemma_scan_le(s, j0);
    }
    assert(j0 < j1 <= s.len());
    let j2 = scan_frac(s, j1)->0;
    assert(scan_frac(s, j1) is Some);
    if 0 <= j1 && j1 < s.len() && s[j1] == '.' {
        lemma_scan_ge(s, j1 + 1);
        lemma_scan_le(s, j1 + 1);
        assert(j2 == scan_digits(s, j1 + 1) && j2 != j1 + 1);
        assert(j1 < j2 <= s.len());
    } else {
        assert(j2 == j1);
    }
    let j3 = scan_exp(s, j2)->0;
    assert(scan_exp(s, j2) is Some && j3 == j);
    if 0 <= j2 && j2 < s.len() && (s[j2] == 'e' || s[j2] == 'E') {
        let k = if j2 + 1 < s.len() && (s[j2 + 1] == '+' || s[j2 + 1] == '-') {
            j2 + 2
        } else {
            j2 + 1
        };
        lemma_scan_ge(s, k);
        lemma_scan_le(s, k);
        assert(j3 == scan_digits(s, k) && j3 != k);
        assert(j2 < k < j3);
        assert(j3 <= s.len());
    } else {
        assert(j3 == j2);
    }
    assert(i <= j0 <= j1 <= j2 <= j3 == j);
    assert(i < j);
    // now mirror the stages on the token itself
    assert(t[0] == s[i]);
    let q0 = j0 - i;
    if q0 == 1 {
        assert(t[0] == '-');
    }
    assert(t[q0] == s[j0]);
    if s[j0] == '0' {
        assert(j1 - i == q0 + 1);
    } else {
        lemma_scan_digits_sub(s, i, j, j0);
        assert(scan_digits(t, q0) == j1 - i);
    }
    // the fraction on the token
    if 0 <= j1 && j1 < s.len() && s[j1] == '.' {
        assert(j1 < j);
        assert(t[j1 - i] == s[j1]);
        lemma_scan_digits_sub(s, i, j, j1 + 1);
        assert(scan_frac(t, j1 - i) == Some(j2 - i));
    } else {
        if j1 < j {
            assert(t[j1 - i] == s[j1]);
        }
        assert(scan_frac(t, j1 - i) == Some(j1 - i));
    }
    // the exponent on the token
    if 0 <= j2 && j2 < s.len() && (s[j2] == 'e' || s[j2] == 'E') {
        assert(j2 < j);
        assert(t[j2 - i] == s[j2]);
        let k = if j2 + 1 < s.len() && (s[j2 + 1] == '+' || s[j2 + 1] == '-') {
            j2 + 2
        } else {
            j2 + 1
        };
        assert(j2 + 1 < j);
        assert(t[j2 + 1 - i] == s[j2 + 1]);
        lemma_scan_digits_sub(s, i, j, k);
        assert(scan_exp(t, j2 - i) == Some(j - i));
    } else {
        if j2 < j {
            assert(t[j2 - i] == s[j2]);
        }
        assert(scan_exp(t, j2 - i) == Some(j2 - i));
    }
    assert(sp_number_end(t, 0) == Some(t.len() as int));
}

proof fn lemma_wf_elems_snoc(es: Seq<JVal>, v: JVal)
    ensures
        wf_elems(es.push(v)) == (wf_elems(es) && wf_jval(v)),
    decreases es,
{
    if es.len() == 0 {
        assert(es.push(v).subrange(1, 1) =~= Seq::<JVal>::empty());
        assert(es.push(v)[0] == v);
        assert(wf_elems(Seq::<JVal>::empty()));
        assert(es =~= Seq::<JVal>::empty());
    } else {
        let t = es.subrange(1, es.len() as int);
        assert(es.push(v).subrange(1, es.len() as int + 1) =~= t.push(v));
        assert(es.push(v)[0] == es[0]);
        lemma_wf_elems_snoc(t, v);
        assert(wf_elems(es.push(v)) == (wf_jval(es[0]) && wf_elems(t.push(v))));
        assert(wf_elems(es) == (wf_jval(es[0]) && wf_elems(t)));
    }
}

proof fn lemma_jdepth_elems_snoc(es: Seq<JVal>, v: JVal)
    ensures
        jdepth_elems(es.push(v)) == if jdepth_elems(es) >= jdepth(v) {
            jdepth_elems(es)
        } else {
            jdepth(v)
        },
    decreases es,
{
    if es.len() == 0 {
        assert(es.push(v).subrange(1, 1) =~= Seq::<JVal>::empty());
        assert(es.push(v)[0] == v);
        assert(jdepth_elems(Seq::<JVal>::empty()) == 0);
        assert(es =~= Seq::<JVal>::empty());
    } else {
        let t = es.subrange(1, es.len() as int);
        assert(es.push(v).subrange(1, es.len() as int + 1) =~= t.push(v));
        assert(es.push(v)[0] == es[0]);
        lemma_jdepth_elems_snoc(t, v);
    }
}

proof fn lemma_wf_membs_snoc(ms: Seq<(Seq<char>, JVal)>, m: (Seq<char>, JVal))
    ensures
        wf_membs(ms.push(m)) == (wf_membs(ms) && wf_jval(m.1)),
    decreases ms,
{
    if ms.len() == 0 {
        assert(ms.push(m).subrange(1, 1) =~= Seq::<(Seq<char>, JVal)>::empty());
        assert(ms.push(m)[0] == m);
        assert(wf_membs(Seq::<(Seq<char>, JVal)>::empty()));
        assert(ms =~= Seq::<(Seq<char>, JVal)>::empty());
    } else {
        let t = ms.subrange(1, ms.len() as int);
        assert(ms.push(m).subrange(1, ms.len() as int + 1) =~= t.push(m));
        assert(ms.push(m)[0] == ms[0]);
        lemma_wf_membs_snoc(t, m);
        assert(wf_membs(ms.push(m)) == (wf_jval(ms[0].1) && wf_membs(t.push(m))));
        assert(wf_membs(ms) == (wf_jval(ms[0].1) && wf_membs(t)));
    }
}

proof fn lemma_jdepth_membs_snoc(ms: Seq<(Seq<char>, JVal)>, m: (Seq<char>, JVal))
    ensures
        jdepth_membs(ms.push(m)) == if jdepth_membs(ms) >= jdepth(m.1) {
            jdepth_membs(ms)
        } else {
            jdepth(m.1)
        },
    decreases ms,
{
    if ms.len() == 0 {
        assert(ms.push(m).subrange(1, 1) =~= Seq::<(Seq<char>, JVal)>::empty());
        assert(ms.push(m)[0] == m);
        assert(jdepth_membs(Seq::<(Seq<char>, JVal)>::empty()) == 0);
        assert(ms =~= Seq::<(Seq<char>, JVal)>::empty());
    } else {
        let t = ms.subrange(1, ms.len() as int);
        assert(ms.push(m).subrange(1, ms.len() as int + 1) =~= t.push(m));
        assert(ms.push(m)[0] == ms[0]);
        lemma_jdepth_membs_snoc(t, m);
    }
}

#[verifier::rlimit(60)]
proof fn lemma_sp_string_sound(s: Seq<char>, i: int, acc: Seq<char>)
    ensures
        sp_string(s, i, acc) matches Some((cs, j)) ==> i < j <= s.len(),
    decreases s.len() - i,
{
    if 0 <= i && i < s.len() {
        let c = s[i];
        if c == '"' {
        } else if c == '\\' {
            if i + 1 < s.len() {
                let e = s[i + 1];
                if e == 'u' {
                    match sp_hex4(s, i + 2) {
                        Option::None => {},
                        Option::Some(u) => {
                            if 0xD800 <= u && u < 0xDC00 {
                                if i + 12 <= s.len() && s[i + 6] == '\\' && s[i + 7] == 'u' {
                                    match sp_hex4(s, i + 8) {
                                        Option::None => {},
                                        Option::Some(u2) => {
                                            let cp = (0x10000 + (u - 0xD800) * 0x400 + (u2
                                                - 0xDC00)) as u32;
                                            lemma_sp_string_sound(s, i + 12, acc.push(cp as char));
                                        },
                                    }
                                }
                            } else {
                                lemma_sp_string_sound(s, i + 6, acc.push(u as char));
                            }
                        },
                    }
                } else {
                    match unescape_char(e) {
                        Option::None => {},
                        Option::Some(c2) => {
                            lemma_sp_string_sound(s, i + 2, acc.push(c2));
                        },
                    }
                }
            }
        } else if (c as u32) < 32 {
        } else {
            lemma_sp_string_sound(s, i + 1, acc.push(c));
        }
    }
}

/// Every value the grammar accepts is well formed, stays within the given
/// nesting budget, and ends strictly after it began.
proof fn lemma_sp_value_sound(s: Seq<char>, i: int, d: nat)
    ensures
        sp_value(s, i, d) matches Some((jv, j)) ==> wf_jval(jv) && jdepth(jv) <= d && i < j
            <= s.len(),
    decreases d, s.len() - i, 0int,
{
    if 0 <= i && i < s.len() {
        let c = s[i];
        if c == '"' {
            lemma_sp_string_sound(s, i + 1, Seq::empty());
        } else if c == '[' {
            if d > 0 {
                let j = skip_ws(s, i + 1);
                lemma_skip_ws_bounds(s, i + 1);
                if !(0 <= j && j < s.len() && s[j] == ']') && j > i && j <= s.len() {
                    lemma_sp_elems_sound(s, j, (d - 1) as nat, Seq::empty());
                }
            }
        } else if c == '{' {
            if d > 0 {
                let j = skip_ws(s, i + 1);
                lemma_skip_ws_bounds(s, i + 1);
                if !(0 <= j && j < s.len() && s[j] == '}') && j > i && j <= s.len() {
                    lemma_sp_membs_sound(s, j, (d - 1) as nat, Seq::empty());
                }
            }
        } else if c == '-' || is_digit(c) {
            match sp_number_end(s, i) {
                Option::None => {},
                Option::Some(j) => {
                    lemma_number_restrict(s, i, j);
                },
            }
        }
    }
}

proof fn lemma_sp_elems_sound(s: Seq<char>, i: int, d: nat, acc: Seq<JVal>)
    requires
        wf_elems(acc),
        jdepth_elems(acc) <= d,
    ensures
        sp_elems(s, i, d, acc) matches Some((jv, j)) ==> wf_jval(jv) && jdepth(jv) <= d + 1 && i
            < j <= s.len(),
    decreases d, s.len() - i, 1int,
{
    lemma_sp_value_sound(s, i, d);
    match sp_value(s, i, d) {
        Option::None => {},
        Option::Some((v, j)) => {
            if j > i {
                let k = skip_ws(s, j);
                lemma_skip_ws_bounds(s, j);
                lemma_wf_elems_snoc(acc, v);
                lemma_jdepth_elems_snoc(acc, v);
                if 0 <= k && k < s.len() && s[k] == ',' {
                    let m = skip_ws(s, k + 1);
                    lemma_skip_ws_bounds(s, k + 1);
                    if m > i && m <= s.len() {
                        lemma_sp_elems_sound(s, m, d, acc.push(v));
                    }
                }
            }
        },
    }
}

proof fn lemma_sp_membs_sound(s: Seq<char>, i: int, d: nat, acc: Seq<(Seq<char>, JVal)>)
    requires
        wf_membs(acc),
        jdepth_membs(acc) <= d,
    ensures
        sp_membs(s, i, d, acc) matches Some((jv, j)) ==> wf_jval(jv) && jdepth(jv) <= d + 1 && i
            < j <= s.len(),
    decreases d, s.len() - i, 1int,
{
    if 0 <= i && i < s.len() && s[i] == '"' {
        lemma_sp_string_sound(s, i + 1, Seq::empty());
        match sp_string(s, i + 1, Seq::empty()) {
            Option::None => {},
            Option::Some((key, j)) => {
                let k = skip_ws(s, j);
                lemma_skip_ws_bounds(s, j);
                if 0 <= k && k < s.len() && s[k] == ':' {
                    let m = skip_ws(s, k + 1);
                    lemma_skip_ws_bounds(s, k + 1);
                    if m >= i && m <= s.len() {
                        lemma_sp_value_sound(s, m, d);
                        match sp_value(s, m, d) {
                            Option::None => {},
                            Option::Some((v, j2)) => {
                                if j2 > i {
                                    let k2 = skip_ws(s, j2);
                                    lemma_skip_ws_bounds(s, j2);
                                    lemma_wf_membs_snoc(acc, (key, v));
                                    lemma_jdepth_membs_snoc(acc, (key, v));
                                    if 0 <= k2 && k2 < s.len() && s[k2] == ',' {
                                        let m2 = skip_ws(s, k2 + 1);
                                        lemma_skip_ws_bounds(s, k2 + 1);
                                        if m2 > i && m2 <= s.len() {
                                            lemma_sp_membs_sound(s, m2, d, acc.push((key, v)));
                                        }
                                    }
                                }
                            },
                        }
                    }
                }
            },
        }
    }
}

/// Law: every value the grammar assigns to a text is well formed and
/// within the accepted depth, and its compact text parses back to the
/// same value. So a parse, a stringify and a re-parse reproduce the value
/// of the first parse, for any accepted text.
pub proof fn lemma_round_trip_of_text(s: Seq<char>)
    ensures
        sp_json(s) matches Some(jv) ==> wf_jval(jv) && jdepth(jv) <= MAX_DEPTH as nat && sp_json(
            ser(jv),
        ) == Some(jv),
{
    lemma_skip_ws_bounds(s, 0);
    lemma_sp_value_sound(s, skip_ws(s, 0), MAX_DEPTH as nat);
    match sp_json(s) {
        Option::None => {},
        Option::Some(jv) => {
            lemma_parse_round_trip(jv);
        },
    }
}

/// Law: parsing the compact text of a well-formed value yields exactly
/// that value back, provided its nesting stays within the accepted depth.
/// Object member order, duplicate keys included, survives the round trip.
pub proof fn lemma_parse_round_trip(jv: JVal)
    requires
        wf_jval(jv),
        jdepth(jv) <= MAX_DEPTH as nat,
    ensures
        sp_json(ser(jv)) == Some(jv),
{
    let s = ser(jv);
    lemma_ser_first(jv);
    assert(s.subrange(0, s.len() as int) =~= s);
    assert(placed(s, 0, s));
    assert(delim_at(s, s.len() as int));
    assert(skip_ws(s, 0) == 0);
    lemma_val_at(s, 0, MAX_DEPTH as nat, jv);
    assert(skip_ws(s, s.len() as int) == s.len() as int);
}

/// Law: serializing is idempotent across a parse: the value parsed back
/// from the compact text serializes to that same text again.
pub proof fn lemma_stringify_idempotent(jv: JVal)
    requires
        wf_jval(jv),
        jdepth(jv) <= MAX_DEPTH as nat,
    ensures
        sp_json(ser(jv)) matches Some(u) && ser(u) == ser(jv),
{
    lemma_parse_round_trip(jv);
}

} // verus!
