use vstd::prelude::*;
use crate::value::JVal;

verus! {

// ---------------------------------------------------------------------------
// Character classes and small tables
// ---------------------------------------------------------------------------

/// Whitespace that the grammar allows between tokens.
pub open spec fn is_ws(c: char) -> bool {
    c == ' ' || c == '\t' || c == '\n' || c == '\r'
}

pub open spec fn is_digit(c: char) -> bool {
    48 <= c as u32 && c as u32 <= 57
}

/// The value of a hexadecimal digit, in either case.
pub open spec fn hex_val(c: char) -> Option<u32> {
    if is_digit(c) {
        Some((c as u32 - 48) as u32)
    } else if 97 <= c as u32 && c as u32 <= 102 {  // 'a' ..= 'f'
        Some((c as u32 - 87) as u32)
    } else if 65 <= c as u32 && c as u32 <= 70 {  // 'A' ..= 'F'
        Some((c as u32 - 55) as u32)
    } else {
        None
    }
}

/// The lower-case hexadecimal digit for a value below 16.
pub open spec fn hex_digit(n: u32) -> char {
    if n == 0 { '0' } else if n == 1 { '1' } else if n == 2 { '2' }
    else if n == 3 { '3' } else if n == 4 { '4' } else if n == 5 { '5' }
    else if n == 6 { '6' } else if n == 7 { '7' } else if n == 8 { '8' }
    else if n == 9 { '9' } else if n == 10 { 'a' } else if n == 11 { 'b' }
    else if n == 12 { 'c' } else if n == 13 { 'd' } else if n == 14 { 'e' }
    else { 'f' }
}

/// The character denoted by a single-character escape, `\u` excluded.
pub open spec fn unescape_char(e: char) -> Option<char> {
    if e == '"' { Some('"') }
    else if e == '\\' { Some('\\') }
    else if e == '/' { Some('/') }
    else if e == 'n' { Some('\n') }
    else if e == 't' { Some('\t') }
    else if e == 'r' { Some('\r') }
    else if e == 'b' { Some(8u32 as char) }
    else if e == 'f' { Some(12u32 as char) }
    else { None }
}

// ---------------------------------------------------------------------------
// String escaping (serializer side)
// ---------------------------------------------------------------------------

/// How one character is written inside a string literal: quote, backslash
/// and control characters are escaped, everything else passes through.
pub open spec fn esc_char(c: char) -> Seq<char> {
    if c == '"' { seq!['\\', '"'] }
    else if c == '\\' { seq!['\\', '\\'] }
    else if c == '\n' { seq!['\\', 'n'] }
    else if c == '\t' { seq!['\\', 't'] }
    else if c == '\r' { seq!['\\', 'r'] }
    else if c as u32 == 8 { seq!['\\', 'b'] }
    else if c as u32 == 12 { seq!['\\', 'f'] }
    else if (c as u32) < 32 {
        seq!['\\', 'u', '0', '0', hex_digit((c as u32) / 16), hex_digit((c as u32) % 16)]
    } else {
        seq![c]
    }
}

/// The body of a string literal: every character escaped as needed.
pub open spec fn escape(s: Seq<char>) -> Seq<char>
    decreases s,
{
    if s.len() == 0 {
        Seq::empty()
    } else {
        esc_char(s[0]) + escape(s.subrange(1, s.len() as int))
    }
}

// ---------------------------------------------------------------------------
// Number tokens
// ---------------------------------------------------------------------------

/// The index just past the run of decimal digits starting at `i`.
pub open spec fn scan_digits(s: Seq<char>, i: int) -> int
    decreases s.len() - i,
{
    if 0 <= i && i < s.len() && is_digit(s[i]) {
        scan_digits(s, i + 1)
    } else {
        i
    }
}

/// The index just past an optional fraction part starting at `i`,
/// or `None` when a `.` stands there without a digit after it.
pub open spec fn scan_frac(s: Seq<char>, i: int) -> Option<int> {
    if 0 <= i && i < s.len() && s[i] == '.' {
        let j = scan_digits(s, i + 1);
        if j == i + 1 { None } else { Some(j) }
    } else {
        Some(i)
    }
}

/// The index just past an optional exponent part starting at `i`,
/// or `None` when `e`/`E` stands there without digits after it.
pub open spec fn scan_exp(s: Seq<char>, i: int) -> Option<int> {
    if 0 <= i && i < s.len() && (s[i] == 'e' || s[i] == 'E') {
        let k = if i + 1 < s.len() && (s[i + 1] == '+' || s[i + 1] == '-') { i + 2 } else { i + 1 };
        let j = scan_digits(s, k);
        if j == k { None } else { Some(j) }
    } else {
        Some(i)
    }
}

/// The index just past the number token starting at `i`, or `None` when no
/// well-formed number token starts there. The integer part is `0`, or a
/// nonzero digit followed by further digits.
pub open spec fn sp_number_end(s: Seq<char>, i: int) -> Option<int> {
    let j0 = if 0 <= i && i < s.len() && s[i] == '-' { i + 1 } else { i };
    if !(0 <= j0 && j0 < s.len() && is_digit(s[j0])) {
        None
    } else {
        let j1 = if s[j0] == '0' { j0 + 1 } else { scan_digits(s, j0) };
        match scan_frac(s, j1) {
            Option::None => None,
            Option::Some(j2) => match scan_exp(s, j2) {
                Option::None => None,
                Option::Some(j3) => Some(j3),
            },
        }
    }
}

/// A well-formed number token: the numeric grammar matches it whole.
pub open spec fn is_num_token(t: Seq<char>) -> bool {
    sp_number_end(t, 0) == Some(t.len() as int)
}

// ---------------------------------------------------------------------------
// Well-formedness and nesting depth
// ---------------------------------------------------------------------------

/// Well-formedness of a value: every number token in the tree is one the
/// numeric grammar accepts. Strings, keys and the shape of the tree are
/// unrestricted.
pub open spec fn wf_jval(jv: JVal) -> bool
    decreases jv,
{
    match jv {
        JVal::Null => true,
        JVal::Bool(_) => true,
        JVal::Num(t) => is_num_token(t),
        JVal::Str(_) => true,
        JVal::Arr(es) => wf_elems(es),
        JVal::Obj(ms) => wf_membs(ms),
    }
}

pub open spec fn wf_elems(es: Seq<JVal>) -> bool
    decreases es,
{
    if es.len() == 0 {
        true
    } else {
        wf_jval(es[0]) && wf_elems(es.subrange(1, es.len() as int))
    }
}

pub open spec fn wf_membs(ms: Seq<(Seq<char>, JVal)>) -> bool
    decreases ms,
{
    if ms.len() == 0 {
        true
    } else {
        wf_jval(ms[0].1) && wf_membs(ms.subrange(1, ms.len() as int))
    }
}

/// The nesting budget a parse of this value consumes: one for each
/// array or object level.
pub open spec fn jdepth(jv: JVal) -> nat
    decreases jv,
{
    match jv {
        JVal::Arr(es) => 1 + jdepth_elems(es),
        JVal::Obj(ms) => 1 + jdepth_membs(ms),
        _ => 0,
    }
}

pub open spec fn jdepth_elems(es: Seq<JVal>) -> nat
    decreases es,
{
    if es.len() == 0 {
        0
    } else {
        let d0 = jdepth(es[0]);
        let dr = jdepth_elems(es.subrange(1, es.len() as int));
        if d0 >= dr { d0 } else { dr }
    }
}

pub open spec fn jdepth_membs(ms: Seq<(Seq<char>, JVal)>) -> nat
    decreases ms,
{
    if ms.len() == 0 {
        0
    } else {
        let d0 = jdepth(ms[0].1);
        let dr = jdepth_membs(ms.subrange(1, ms.len() as int));
        if d0 >= dr { d0 } else { dr }
    }
}

// ---------------------------------------------------------------------------
// Serialization: compact form
// ---------------------------------------------------------------------------

/// The compact text of a value: no insignificant whitespace, members
/// separated by `,`, key and value separated by `:`, number tokens verbatim.
pub open spec fn ser(jv: JVal) -> Seq<char>
    decreases jv, 1int,
{
    match jv {
        JVal::Null => seq!['n', 'u', 'l', 'l'],
        JVal::Bool(b) => if b { seq!['t', 'r', 'u', 'e'] } else { seq!['f', 'a', 'l', 's', 'e'] },
        JVal::Num(t) => t,
        JVal::Str(s) => seq!['"'] + escape(s) + seq!['"'],
        JVal::Arr(es) => seq!['['] + ser_elems(es) + seq![']'],
        JVal::Obj(ms) => seq!['{'] + ser_membs(ms) + seq!['}'],
    }
}

pub open spec fn ser_elems(es: Seq<JVal>) -> Seq<char>
    decreases es, 0int,
{
    if es.len() == 0 {
        Seq::empty()
    } else if es.len() == 1 {
        ser(es[0])
    } else {
        ser(es[0]) + seq![','] + ser_elems(es.subrange(1, es.len() as int))
    }
}

pub open spec fn ser_memb(m: (Seq<char>, JVal)) -> Seq<char>
    decreases m, 0int,
{
    seq!['"'] + escape(m.0) + seq!['"', ':'] + ser(m.1)
}

pub open spec fn ser_membs(ms: Seq<(Seq<char>, JVal)>) -> Seq<char>
    decreases ms, 1int,
{
    if ms.len() == 0 {
        Seq::empty()
    } else if ms.len() == 1 {
        ser_memb(ms[0])
    } else {
        ser_memb(ms[0]) + seq![','] + ser_membs(ms.subrange(1, ms.len() as int))
    }
}

// ---------------------------------------------------------------------------
// Serialization: pretty form
// ---------------------------------------------------------------------------

/// Two spaces for each nesting level.
pub open spec fn sp_indent(n: nat) -> Seq<char>
    decreases n,
{
    if n == 0 {
        Seq::empty()
    } else {
        seq![' ', ' '] + sp_indent((n - 1) as nat)
    }
}

/// The pretty text of a value at nesting level `ind`: each member and
/// element on a line of its own, two-space indentation, `": "` between a
/// key and its value; empty arrays and objects stay on one line.
pub open spec fn serp(jv: JVal, ind: nat) -> Seq<char>
    decreases jv, 1int,
{
    match jv {
        JVal::Null => seq!['n', 'u', 'l', 'l'],
        JVal::Bool(b) => if b { seq!['t', 'r', 'u', 'e'] } else { seq!['f', 'a', 'l', 's', 'e'] },
        JVal::Num(t) => t,
        JVal::Str(s) => seq!['"'] + escape(s) + seq!['"'],
        JVal::Arr(es) => {
            if es.len() == 0 {
                seq!['[', ']']
            } else {
                seq!['['] + serp_elems(es, (ind + 1) as nat) + seq!['\n'] + sp_indent(ind)
                    + seq![']']
            }
        },
        JVal::Obj(ms) => {
            if ms.len() == 0 {
                seq!['{', '}']
            } else {
                seq!['{'] + serp_membs(ms, (ind + 1) as nat) + seq!['\n'] + sp_indent(ind)
                    + seq!['}']
            }
        },
    }
}

/// Elements, each as `\n`, indentation, element; commas between them.
pub open spec fn serp_elems(es: Seq<JVal>, ind: nat) -> Seq<char>
    decreases es, 2int,
{
    if es.len() == 0 {
        Seq::empty()
    } else if es.len() == 1 {
        seq!['\n'] + sp_indent(ind) + serp(es[0], ind)
    } else {
        seq!['\n'] + sp_indent(ind) + serp(es[0], ind) + seq![','] + serp_elems(
            es.subrange(1, es.len() as int),
            ind,
        )
    }
}

pub open spec fn serp_membs(ms: Seq<(Seq<char>, JVal)>, ind: nat) -> Seq<char>
    decreases ms, 2int,
{
    if ms.len() == 0 {
        Seq::empty()
    } else {
        let head = seq!['\n'] + sp_indent(ind) + seq!['"'] + escape(ms[0].0) + seq!['"', ':', ' ']
            + serp(ms[0].1, ind);
        if ms.len() == 1 {
            head
        } else {
            head + seq![','] + serp_membs(ms.subrange(1, ms.len() as int), ind)
        }
    }
}

// ---------------------------------------------------------------------------
// The grammar: a deterministic recursive-descent parse over the text
// ---------------------------------------------------------------------------

/// The nesting depth the parser accepts before it gives up; a guard
/// against unbounded recursion on adversarial input.
pub const MAX_DEPTH: u32 = 128;

/// The first index at or after `i` that does not hold whitespace.
pub open spec fn skip_ws(s: Seq<char>, i: int) -> int
    decreases s.len() - i,
{
    if 0 <= i && i < s.len() && is_ws(s[i]) {
        skip_ws(s, i + 1)
    } else {
        i
    }
}

/// The content and end of the string literal whose opening quote stands
/// just before `i`; `acc` holds the characters already read. `None` when
/// the literal is unterminated, holds a raw control character, or holds a
/// malformed escape, an unpaired surrogate included.
pub open spec fn sp_string(s: Seq<char>, i: int, acc: Seq<char>) -> Option<(Seq<char>, int)>
    decreases s.len() - i,
{
    if i < 0 || i >= s.len() {
        None
    } else {
        let c = s[i];
        if c == '"' {
            Some((acc, i + 1))
        } else if c == '\\' {
            if i + 1 >= s.len() {
                None
            } else {
                let e = s[i + 1];
                if e == 'u' {
                    match sp_hex4(s, i + 2) {
                        Option::None => None,
                        Option::Some(u) => {
                            if 0xD800 <= u && u < 0xDC00 {
                                if i + 12 <= s.len() && s[i + 6] == '\\' && s[i + 7] == 'u' {
                                    match sp_hex4(s, i + 8) {
                                        Option::None => None,
                                        Option::Some(u2) => {
                                            if 0xDC00 <= u2 && u2 < 0xE000 {
                                                let cp = (0x10000 + (u - 0xD800) * 0x400 + (u2
                                                    - 0xDC00)) as u32;
                                                sp_string(s, i + 12, acc.push(cp as char))
                                            } else {
                                                None
                                            }
                                        },
                                    }
                                } else {
                                    None
                                }
                            } else if 0xDC00 <= u && u < 0xE000 {
                                None
                            } else {
                                sp_string(s, i + 6, acc.push(u as char))
                            }
                        },
                    }
                } else {
                    match unescape_char(e) {
                        Option::None => None,
                        Option::Some(c2) => sp_string(s, i + 2, acc.push(c2)),
                    }
                }
            }
        } else if (c as u32) < 32 {
            None
        } else {
            sp_string(s, i + 1, acc.push(c))
        }
    }
}

/// Four hexadecimal digits starting at `i`, as a value below 0x10000.
pub open spec fn sp_hex4(s: Seq<char>, i: int) -> Option<u32> {
    if 0 <= i && i + 4 <= s.len() {
        match (hex_val(s[i]), hex_val(s[i + 1]), hex_val(s[i + 2]), hex_val(s[i + 3])) {
            (Option::Some(a), Option::Some(b), Option::Some(c), Option::Some(d)) => Some(
                (a * 4096 + b * 256 + c * 16 + d) as u32,
            ),
            _ => None,
        }
    } else {
        None
    }
}

/// The value starting at `i` (no leading whitespace) and the index just
/// past it. `d` is the remaining nesting budget. `None` when no value of
/// the grammar starts at `i` or the budget is spent.
pub open spec fn sp_value(s: Seq<char>, i: int, d: nat) -> Option<(JVal, int)>
    decreases d, s.len() - i, 0int,
{
    if i < 0 || i >= s.len() {
        None
    } else {
        let c = s[i];
        if c == 'n' {
            if i + 4 <= s.len() && s[i + 1] == 'u' && s[i + 2] == 'l' && s[i + 3] == 'l' {
                Some((JVal::Null, i + 4))
            } else {
                None
            }
        } else if c == 't' {
            if i + 4 <= s.len() && s[i + 1] == 'r' && s[i + 2] == 'u' && s[i + 3] == 'e' {
                Some((JVal::Bool(true), i + 4))
            } else {
                None
            }
        } else if c == 'f' {
            if i + 5 <= s.len() && s[i + 1] == 'a' && s[i + 2] == 'l' && s[i + 3] == 's' && s[i + 4]
                == 'e' {
                Some((JVal::Bool(false), i + 5))
            } else {
                None
            }
        } else if c == '"' {
            match sp_string(s, i + 1, Seq::empty()) {
                Option::None => None,
                Option::Some((cs, j)) => Some((JVal::Str(cs), j)),
            }
        } else if c == '[' {
            if d == 0 {
                None
            } else {
                let j = skip_ws(s, i + 1);
                if 0 <= j && j < s.len() && s[j] == ']' {
                    Some((JVal::Arr(Seq::empty()), j + 1))
                } else if j <= i {
                    None
                } else {
                    sp_elems(s, j, (d - 1) as nat, Seq::empty())
                }
            }
        } else if c == '{' {
            if d == 0 {
                None
            } else {
                let j = skip_ws(s, i + 1);
                if 0 <= j && j < s.len() && s[j] == '}' {
                    Some((JVal::Obj(Seq::empty()), j + 1))
                } else if j <= i {
                    None
                } else {
                    sp_membs(s, j, (d - 1) as nat, Seq::empty())
                }
            }
        } else if c == '-' || is_digit(c) {
            match sp_number_end(s, i) {
                Option::None => None,
                Option::Some(j) => Some((JVal::Num(s.subrange(i, j)), j)),
            }
        } else {
            None
        }
    }
}

/// The remaining elements of an array whose next element starts at `i`
/// (no leading whitespace); `acc` holds the elements already read.
/// Consumes the closing `]` as well.
pub open spec fn sp_elems(s: Seq<char>, i: int, d: nat, acc: Seq<JVal>) -> Option<(JVal, int)>
    decreases d, s.len() - i, 1int,
{
    match sp_value(s, i, d) {
        Option::None => None,
        Option::Some((v, j)) => {
            if j <= i {
                None
            } else {
                let k = skip_ws(s, j);
                if 0 <= k && k < s.len() && s[k] == ',' {
                    let m = skip_ws(s, k + 1);
                    if m <= i || m > s.len() {
                        None
                    } else {
                        sp_elems(s, m, d, acc.push(v))
                    }
                } else if 0 <= k && k < s.len() && s[k] == ']' {
                    Some((JVal::Arr(acc.push(v)), k + 1))
                } else {
                    None
                }
            }
        },
    }
}

/// The remaining members of an object whose next key starts at `i`
/// (no leading whitespace); `acc` holds the members already read.
/// Consumes the closing `}` as well.
pub open spec fn sp_membs(
    s: Seq<char>,
    i: int,
    d: nat,
    acc: Seq<(Seq<char>, JVal)>,
) -> Option<(JVal, int)>
    decreases d, s.len() - i, 1int,
{
    if !(0 <= i && i < s.len() && s[i] == '"') {
        None
    } else {
        match sp_string(s, i + 1, Seq::empty()) {
            Option::None => None,
            Option::Some((key, j)) => {
                let k = skip_ws(s, j);
                if !(0 <= k && k < s.len() && s[k] == ':') {
                    None
                } else {
                    let m = skip_ws(s, k + 1);
                    if m < i || m > s.len() {
                        None
                    } else {
                        match sp_value(s, m, d) {
                            Option::None => None,
                            Option::Some((v, j2)) => {
                                if j2 <= i {
                                    None
                                } else {
                                    let k2 = skip_ws(s, j2);
                                    if 0 <= k2 && k2 < s.len() && s[k2] == ',' {
                                        let m2 = skip_ws(s, k2 + 1);
                                        if m2 <= i || m2 > s.len() {
                                            None
                                        } else {
                                            sp_membs(s, m2, d, acc.push((key, v)))
                                        }
                                    } else if 0 <= k2 && k2 < s.len() && s[k2] == '}' {
                                        Some((JVal::Obj(acc.push((key, v))), k2 + 1))
                                    } else {
                                        None
                                    }
                                }
                            },
                        }
                    }
                }
            },
        }
    }
}

/// The value a whole text denotes: one value, whitespace allowed around
/// it, nothing after it. `None` when the text is not a single well-formed
/// JSON value or its nesting exceeds [`MAX_DEPTH`].
pub open spec fn sp_json(s: Seq<char>) -> Option<JVal> {
    let i = skip_ws(s, 0);
    match sp_value(s, i, MAX_DEPTH as nat) {
        Option::None => None,
        Option::Some((v, j)) => {
            if skip_ws(s, j) == s.len() {
                Some(v)
            } else {
                None
            }
        },
    }
}

} // verus!
