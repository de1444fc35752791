use vstd::prelude::*;
use vstd::string::*;
use crate::value::{Value, vview, vview_elems, vview_membs, lemma_vview_elems, lemma_vview_membs,
    string_from_chars};
use crate::model::{ser, ser_elems, ser_memb, ser_membs, serp, serp_elems, serp_membs, sp_indent,
    escape, esc_char, hex_digit, wf_jval, wf_elems, wf_membs};

verus! {

/// The defensive failure of the serializer: the value holds a number
/// token that the numeric grammar does not accept.
#[derive(Debug)]
pub struct SerializeError {
    pub msg: String,
}

impl SerializeError {
    /// The human-readable description of the failure.
    pub fn message(&self) -> (r: &str)
        ensures
            r@ == self.msg@,
    {
        self.msg.as_str()
    }
}

proof fn lemma_escape_snoc(s: Seq<char>, c: char)
    ensures
        escape(s.push(c)) == escape(s) + esc_char(c),
    decreases s.len(),
{
    if s.len() == 0 {
        assert(s.push(c).subrange(1, 1) =~= Seq::<char>::empty());
        assert(s.push(c)[0] == c);
        assert(escape(Seq::<char>::empty()) == Seq::<char>::empty());
        assert(s =~= Seq::<char>::empty());
        assert(escape(s.push(c)) =~= escape(s) + esc_char(c));
    } else {
        let t = s.subrange(1, s.len() as int);
        assert(s.push(c).subrange(1, s.len() as int + 1) =~= t.push(c));
        lemma_escape_snoc(t, c);
        assert(escape(s.push(c)) =~= escape(s) + esc_char(c));
    }
}

proof fn lemma_sp_indent_snoc(n: nat)
    ensures
        sp_indent(n + 1) == sp_indent(n) + seq![' ', ' '],
    decreases n,
{
    if n == 0 {
        assert(sp_indent(1) =~= sp_indent(0) + seq![' ', ' ']);
    } else {
        lemma_sp_indent_snoc((n - 1) as nat);
        assert(sp_indent(n + 1) =~= sp_indent(n) + seq![' ', ' ']);
    }
}

fn hex_digit_x(n: u32) -> (c: char)
    requires
        n < 16,
    ensures
        c == hex_digit(n),
{
    if n == 0 { '0' } else if n == 1 { '1' } else if n == 2 { '2' }
    else if n == 3 { '3' } else if n == 4 { '4' } else if n == 5 { '5' }
    else if n == 6 { '6' } else if n == 7 { '7' } else if n == 8 { '8' }
    else if n == 9 { '9' } else if n == 10 { 'a' } else if n == 11 { 'b' }
    else if n == 12 { 'c' } else if n == 13 { 'd' } else if n == 14 { 'e' }
    else { 'f' }
}

fn write_esc_char(c: char, out: &mut Vec<char>)
    ensures
        final(out)@ == old(out)@ + esc_char(c),
{
    if c == '"' {
        out.push('\\');
        out.push('"');
    } else if c == '\\' {
        out.push('\\');
        out.push('\\');
    } else if c == '\n' {
        out.push('\\');
        out.push('n');
    } else if c == '\t' {
        out.push('\\');
        out.push('t');
    } else if c == '\r' {
        out.push('\\');
        out.push('r');
    } else if c as u32 == 8 {
        out.push('\\');
        out.push('b');
    } else if c as u32 == 12 {
        out.push('\\');
        out.push('f');
    } else if (c as u32) < 32 {
        out.push('\\');
        out.push('u');
        out.push('0');
        out.push('0');
        let u = c as u32;
        out.push(hex_digit_x(u / 16));
        out.push(hex_digit_x(u % 16));
    } else {
        out.push(c);
    }
    proof {
        assert(out@ =~= old(out)@ + esc_char(c));
    }
}

/// Appends the characters of `t` unchanged.
fn write_str(t: &str, out: &mut Vec<char>)
    ensures
        final(out)@ == old(out)@ + t@,
{
    let n = t.unicode_len();
    let mut k: usize = 0;
    while k < n
        invariant
            k <= n,
            n == t@.len(),
            out@ == old(out)@ + t@.subrange(0, k as int),
        decreases n - k,
    {
        let c = t.get_char(k);
        out.push(c);
        proof {
            assert(out@ =~= old(out)@ + t@.subrange(0, k as int + 1));
        }
        k = k + 1;
    }
    proof {
        assert(t@.subrange(0, t@.len() as int) =~= t@);
    }
}

/// Appends `s` as a string literal: quoted and escaped.
fn write_quoted(s: &str, out: &mut Vec<char>)
    ensures
        final(out)@ == old(out)@ + seq!['"'] + escape(s@) + seq!['"'],
{
    let n = s.unicode_len();
    out.push('"');
    let mut k: usize = 0;
    while k < n
        invariant
            k <= n,
            n == s@.len(),
            out@ == old(out)@ + seq!['"'] + escape(s@.subrange(0, k as int)),
        decreases n - k,
    {
        let c = s.get_char(k);
        write_esc_char(c, out);
        proof {
            assert(s@.subrange(0, k as int).push(s@[k as int]) =~= s@.subrange(0, k as int + 1));
            lemma_escape_snoc(s@.subrange(0, k as int), s@[k as int]);
            assert(out@ =~= old(out)@ + seq!['"'] + escape(s@.subrange(0, k as int + 1)));
        }
        k = k + 1;
    }
    out.push('"');
    proof {
        assert(s@.subrange(0, s@.len() as int) =~= s@);
        assert(out@ =~= old(out)@ + seq!['"'] + escape(s@) + seq!['"']);
    }
}

/// Appends the compact text of `v`.
#[verifier::loop_isolation(false)]
pub(crate) fn write_value(v: &Value, out: &mut Vec<char>)
    ensures
        final(out)@ == old(out)@ + ser(vview(*v)),
    decreases v,
{
    match v {
        Value::Null => {
            out.push('n');
            out.push('u');
            out.push('l');
            out.push('l');
            proof {
                assert(out@ =~= old(out)@ + ser(vview(*v)));
            }
        },
        Value::Bool(b) => {
            if *b {
                out.push('t');
                out.push('r');
                out.push('u');
                out.push('e');
            } else {
                out.push('f');
                out.push('a');
                out.push('l');
                out.push('s');
                out.push('e');
            }
            proof {
                assert(out@ =~= old(out)@ + ser(vview(*v)));
            }
        },
        Value::Num(t) => {
            write_str(t.as_str(), out);
            proof {
                assert(out@ =~= old(out)@ + ser(vview(*v)));
            }
        },
        Value::Str(s) => {
            write_quoted(s.as_str(), out);
            proof {
                assert(out@ =~= old(out)@ + ser(vview(*v)));
            }
        },
        Value::Arr(es) => {
            proof {
                lemma_vview_elems(es@);
            }
            let ghost vs = vview_elems(es@);
            out.push('[');
            let n = es.len();
            proof {
                assert(vs.subrange(0, n as int) =~= vs);
                if n == 0 {
                    assert(ser_elems(vs) == Seq::<char>::empty());
                }
                assert(out@ + ser_elems(vs) + seq![']'] =~= old(out)@ + ser(vview(*v)));
            }
            let mut k: usize = 0;
            while k < n
                invariant
                    k <= n,
                    n == es@.len(),
                    vs == vview_elems(es@),
                    vs.len() == n,
                    forall|j: int| 0 <= j < n ==> vs[j] == vview(es@[j]),
                    k < n ==> out@ + ser_elems(vs.subrange(k as int, n as int)) + seq![']']
                        == old(out)@ + ser(vview(*v)),
                    k == n ==> out@ + seq![']'] == old(out)@ + ser(vview(*v)),
                decreases n - k,
            {
                proof {
                    assert(decreases_to!(*v => *es));
                    assert(decreases_to!(*es => es@));
                    assert(decreases_to!(es@ => es@[k as int]));
                    assert(decreases_to!(*v => es@[k as int]));
                }
                write_value(&es[k], out);
                proof {
                    let w = vs.subrange(k as int, n as int);
                    assert(w[0] == vs[k as int]);
                    if k + 1 < n {
                        assert(w.subrange(1, w.len() as int) =~= vs.subrange(
                            k as int + 1,
                            n as int,
                        ));
                    }
                }
                if k + 1 < n {
                    out.push(',');
                    proof {
                        assert(out@ + ser_elems(vs.subrange(k as int + 1, n as int)) + seq![']']
                            =~= old(out)@ + ser(vview(*v)));
                    }
                } else {
                    proof {
                        assert(out@ + seq![']'] =~= old(out)@ + ser(vview(*v)));
                    }
                }
                k = k + 1;
            }
            out.push(']');
            proof {
                if n == 0 {
                    assert(vs =~= Seq::<crate::value::JVal>::empty());
                }
                assert(out@ =~= old(out)@ + ser(vview(*v)));
            }
        },
        Value::Obj(ms) => {
            proof {
                lemma_vview_membs(ms@);
            }
            let ghost vs = vview_membs(ms@);
            out.push('{');
            let n = ms.len();
            proof {
                assert(vs.subrange(0, n as int) =~= vs);
                if n == 0 {
                    assert(ser_membs(vs) == Seq::<char>::empty());
                }
                assert(out@ + ser_membs(vs) + seq!['}'] =~= old(out)@ + ser(vview(*v)));
            }
            let mut k: usize = 0;
            while k < n
                invariant
                    k <= n,
                    n == ms@.len(),
                    vs == vview_membs(ms@),
                    vs.len() == n,
                    forall|j: int| 0 <= j < n ==> vs[j] == (ms@[j].0@, vview(ms@[j].1)),
                    k < n ==> out@ + ser_membs(vs.subrange(k as int, n as int)) + seq!['}']
                        == old(out)@ + ser(vview(*v)),
                    k == n ==> out@ + seq!['}'] == old(out)@ + ser(vview(*v)),
                decreases n - k,
            {
                let m = &ms[k];
                write_quoted(m.0.as_str(), out);
                out.push(':');
                proof {
                    assert(decreases_to!(*v => *ms));
                    assert(decreases_to!(*ms => ms@));
                    assert(decreases_to!(ms@ => ms@[k as int]));
                    assert(decreases_to!(ms@[k as int] => ms@[k as int].1));
                    assert(decreases_to!(*v => ms@[k as int].1));
                }
                write_value(&m.1, out);
                proof {
                    let w = vs.subrange(k as int, n as int);
                    assert(w[0] == vs[k as int]);
                    assert(ser_memb(w[0]) =~= seq!['"'] + escape(ms@[k as int].0@) + seq![
                        '"',
                        ':',
                    ] + ser(vview(ms@[k as int].1)));
                    if k + 1 < n {
                        assert(w.subrange(1, w.len() as int) =~= vs.subrange(
                            k as int + 1,
                            n as int,
                        ));
                    }
                }
                if k + 1 < n {
                    out.push(',');
                    proof {
                        assert(out@ + ser_membs(vs.subrange(k as int + 1, n as int)) + seq!['}']
                            =~= old(out)@ + ser(vview(*v)));
                    }
                } else {
                    proof {
                        assert(out@ + seq!['}'] =~= old(out)@ + ser(vview(*v)));
                    }
                }
                k = k + 1;
            }
            out.push('}');
            proof {
                if n == 0 {
                    assert(vs =~= Seq::<(Seq<char>, crate::value::JVal)>::empty());
                }
                assert(out@ =~= old(out)@ + ser(vview(*v)));
            }
        },
    }
}

/// Appends two more spaces of indentation.
fn extend_pad(pad: &Vec<char>) -> (r: Vec<char>)
    ensures
        r@ == pad@ + seq![' ', ' '],
{
    let mut r: Vec<char> = Vec::new();
    let n = pad.len();
    let mut k: usize = 0;
    while k < n
        invariant
            k <= n,
            n == pad@.len(),
            r@ == pad@.subrange(0, k as int),
        decreases n - k,
    {
        r.push(pad[k]);
        proof {
            assert(r@ =~= pad@.subrange(0, k as int + 1));
        }
        k = k + 1;
    }
    r.push(' ');
    r.push(' ');
    proof {
        assert(pad@.subrange(0, n as int) =~= pad@);
        assert(r@ =~= pad@ + seq![' ', ' ']);
    }
    r
}

/// Appends the pretty text of `v` at the nesting level whose indentation
/// `pad` holds.
#[verifier::loop_isolation(false)]
#[verifier::rlimit(60)]
pub(crate) fn write_value_pretty(v: &Value, pad: &Vec<char>, ind: Ghost<nat>, out: &mut Vec<char>)
    requires
        pad@ == sp_indent(ind@),
    ensures
        final(out)@ == old(out)@ + serp(vview(*v), ind@),
    decreases v,
{
    match v {
        Value::Null => {
            out.push('n');
            out.push('u');
            out.push('l');
            out.push('l');
            proof {
                assert(out@ =~= old(out)@ + serp(vview(*v), ind@));
            }
        },
        Value::Bool(b) => {
            if *b {
                out.push('t');
                out.push('r');
                out.push('u');
                out.push('e');
            } else {
                out.push('f');
                out.push('a');
                out.push('l');
                out.push('s');
                out.push('e');
            }
            proof {
                assert(out@ =~= old(out)@ + serp(vview(*v), ind@));
            }
        },
        Value::Num(t) => {
            write_str(t.as_str(), out);
            proof {
                assert(out@ =~= old(out)@ + serp(vview(*v), ind@));
            }
        },
        Value::Str(s) => {
            write_quoted(s.as_str(), out);
            proof {
                assert(out@ =~= old(out)@ + serp(vview(*v), ind@));
            }
        },
        Value::Arr(es) => {
            proof {
                lemma_vview_elems(es@);
            }
            let ghost vs = vview_elems(es@);
            let n = es.len();
            if n == 0 {
                out.push('[');
                out.push(']');
                proof {
                    assert(vs =~= Seq::<crate::value::JVal>::empty());
                    assert(out@ =~= old(out)@ + serp(vview(*v), ind@));
                }
                return ;
            }
            let pad2 = extend_pad(pad);
            proof {
                lemma_sp_indent_snoc(ind@);
            }
            out.push('[');
            proof {
                assert(vs.subrange(0, n as int) =~= vs);
                assert(out@ + serp_elems(vs, ind@ + 1) + seq!['\n'] + sp_indent(ind@) + seq![']']
                    =~= old(out)@ + serp(vview(*v), ind@));
            }
            let mut k: usize = 0;
            while k < n
                invariant
                    k <= n,
                    n == es@.len(),
                    n > 0,
                    vs == vview_elems(es@),
                    vs.len() == n,
                    forall|j: int| 0 <= j < n ==> vs[j] == vview(es@[j]),
                    pad@ == sp_indent(ind@),
                    pad2@ == sp_indent(ind@ + 1),
                    k < n ==> out@ + serp_elems(vs.subrange(k as int, n as int), ind@ + 1)
                        + seq!['\n'] + sp_indent(ind@) + seq![']'] == old(out)@ + serp(
                        vview(*v),
                        ind@,
                    ),
                    k == n ==> out@ + seq!['\n'] + sp_indent(ind@) + seq![']'] == old(out)@
                        + serp(vview(*v), ind@),
                decreases n - k,
            {
                out.push('\n');
                write_str_vec(&pad2, out);
                proof {
                    assert(decreases_to!(*v => *es));
                    assert(decreases_to!(*es => es@));
                    assert(decreases_to!(es@ => es@[k as int]));
                    assert(decreases_to!(*v => es@[k as int]));
                }
                write_value_pretty(&es[k], &pad2, Ghost(ind@ + 1), out);
                proof {
                    let w = vs.subrange(k as int, n as int);
                    assert(w[0] == vs[k as int]);
                    if k + 1 < n {
                        assert(w.subrange(1, w.len() as int) =~= vs.subrange(
                            k as int + 1,
                            n as int,
                        ));
                    }
                }
                if k + 1 < n {
                    out.push(',');
                    proof {
                        assert(out@ + serp_elems(vs.subrange(k as int + 1, n as int), ind@ + 1)
                            + seq!['\n'] + sp_indent(ind@) + seq![']'] =~= old(out)@ + serp(
                            vview(*v),
                            ind@,
                        ));
                    }
                } else {
                    proof {
                        assert(out@ + seq!['\n'] + sp_indent(ind@) + seq![']'] =~= old(out)@
                            + serp(vview(*v), ind@));
                    }
                }
                k = k + 1;
            }
            out.push('\n');
            write_str_vec(pad, out);
            out.push(']');
            proof {
                assert(out@ =~= old(out)@ + serp(vview(*v), ind@));
            }
        },
        Value::Obj(ms) => {
            proof {
                lemma_vview_membs(ms@);
            }
            let ghost vs = vview_membs(ms@);
            let n = ms.len();
            if n == 0 {
                out.push('{');
                out.push('}');
                proof {
                    assert(vs =~= Seq::<(Seq<char>, crate::value::JVal)>::empty());
                    assert(out@ =~= old(out)@ + serp(vview(*v), ind@));
                }
                return ;
            }
            let pad2 = extend_pad(pad);
            proof {
                lemma_sp_indent_snoc(ind@);
            }
            out.push('{');
            proof {
                assert(vs.subrange(0, n as int) =~= vs);
                assert(out@ + serp_membs(vs, ind@ + 1) + seq!['\n'] + sp_indent(ind@) + seq!['}']
                    =~= old(out)@ + serp(vview(*v), ind@));
            }
            let mut k: usize = 0;
            while k < n
                invariant
                    k <= n,
                    n == ms@.len(),
                    n > 0,
                    vs == vview_membs(ms@),
                    vs.len() == n,
                    forall|j: int| 0 <= j < n ==> vs[j] == (ms@[j].0@, vview(ms@[j].1)),
                    pad@ == sp_indent(ind@),
                    pad2@ == sp_indent(ind@ + 1),
                    k < n ==> out@ + serp_membs(vs.subrange(k as int, n as int), ind@ + 1)
                        + seq!['\n'] + sp_indent(ind@) + seq!['}'] == old(out)@ + serp(
                        vview(*v),
                        ind@,
                    ),
                    k == n ==> out@ + seq!['\n'] + sp_indent(ind@) + seq!['}'] == old(out)@
                        + serp(vview(*v), ind@),
                decreases n - k,
            {
                out.push('\n');
                write_str_vec(&pad2, out);
                let m = &ms[k];
                write_quoted(m.0.as_str(), out);
                out.push(':');
                out.push(' ');
                proof {
                    assert(decreases_to!(*v => *ms));
                    assert(decreases_to!(*ms => ms@));
                    assert(decreases_to!(ms@ => ms@[k as int]));
                    assert(decreases_to!(ms@[k as int] => ms@[k as int].1));
                    assert(decreases_to!(*v => ms@[k as int].1));
                }
                write_value_pretty(&m.1, &pad2, Ghost(ind@ + 1), out);
                proof {
                    let w = vs.subrange(k as int, n as int);
                    assert(w[0] == vs[k as int]);
                    if k + 1 < n {
                        assert(w.subrange(1, w.len() as int) =~= vs.subrange(
                            k as int + 1,
                            n as int,
                        ));
                    }
                }
                if k + 1 < n {
                    out.push(',');
                    proof {
                        assert(out@ + serp_membs(vs.subrange(k as int + 1, n as int), ind@ + 1)
                            + seq!['\n'] + sp_indent(ind@) + seq!['}'] =~= old(out)@ + serp(
                            vview(*v),
                            ind@,
                        ));
                    }
                } else {
                    proof {
                        assert(out@ + seq!['\n'] + sp_indent(ind@) + seq!['}'] =~= old(out)@
                            + serp(vview(*v), ind@));
                    }
                }
                k = k + 1;
            }
            out.push('\n');
            write_str_vec(pad, out);
            out.push('}');
            proof {
                assert(out@ =~= old(out)@ + serp(vview(*v), ind@));
            }
        },
    }
}

/// Appends the characters of another vector.
fn write_str_vec(t: &Vec<char>, out: &mut Vec<char>)
    ensures
        final(out)@ == old(out)@ + t@,
{
    let n = t.len();
    let mut k: usize = 0;
    while k < n
        invariant
            k <= n,
            n == t@.len(),
            out@ == old(out)@ + t@.subrange(0, k as int),
        decreases n - k,
    {
        out.push(t[k]);
        proof {
            assert(out@ =~= old(out)@ + t@.subrange(0, k as int + 1));
        }
        k = k + 1;
    }
    proof {
        assert(t@.subrange(0, t@.len() as int) =~= t@);
    }
}

/// Whether every number token in the tree is well formed.
#[verifier::loop_isolation(false)]
pub fn check_wf(v: &Value) -> (r: bool)
    ensures
        r == wf_jval(vview(*v)),
    decreases v,
{
    match v {
        Value::Null => true,
        Value::Bool(_) => true,
        Value::Num(t) => crate::parse::num_token_ok(t.as_str()),
        Value::Str(_) => true,
        Value::Arr(es) => {
            proof {
                lemma_vview_elems(es@);
            }
            let ghost vs = vview_elems(es@);
            let n = es.len();
            proof {
                assert(vs.subrange(0, n as int) =~= vs);
            }
            let mut k: usize = 0;
            while k < n
                invariant
                    k <= n,
                    n == es@.len(),
                    vs == vview_elems(es@),
                    vs.len() == n,
                    forall|j: int| 0 <= j < n ==> vs[j] == vview(es@[j]),
                    wf_elems(vs) == wf_elems(vs.subrange(k as int, n as int)),
                decreases n - k,
            {
                proof {
                    assert(decreases_to!(*v => *es));
                    assert(decreases_to!(*es => es@));
                    assert(decreases_to!(es@ => es@[k as int]));
                    assert(decreases_to!(*v => es@[k as int]));
                }
                let ok = check_wf(&es[k]);
                proof {
                    let w = vs.subrange(k as int, n as int);
                    assert(w[0] == vs[k as int]);
                    assert(w.subrange(1, w.len() as int) =~= vs.subrange(k as int + 1, n as int));
                }
                if !ok {
                    proof {
                        assert(!wf_elems(vs.subrange(k as int, n as int)));
                        assert(!wf_jval(vview(*v)));
                    }
                    return false;
                }
                k = k + 1;
            }
            proof {
                assert(vs.subrange(n as int, n as int) =~= Seq::<crate::value::JVal>::empty());
            }
            true
        },
        Value::Obj(ms) => {
            proof {
                lemma_vview_membs(ms@);
            }
            let ghost vs = vview_membs(ms@);
            let n = ms.len();
            proof {
                assert(vs.subrange(0, n as int) =~= vs);
            }
            let mut k: usize = 0;
            while k < n
                invariant
                    k <= n,
                    n == ms@.len(),
                    vs == vview_membs(ms@),
                    vs.len() == n,
                    forall|j: int| 0 <= j < n ==> vs[j] == (ms@[j].0@, vview(ms@[j].1)),
                    wf_membs(vs) == wf_membs(vs.subrange(k as int, n as int)),
                decreases n - k,
            {
                proof {
                    assert(decreases_to!(*v => *ms));
                    assert(decreases_to!(*ms => ms@));
                    assert(decreases_to!(ms@ => ms@[k as int]));
                    assert(decreases_to!(ms@[k as int] => ms@[k as int].1));
                    assert(decreases_to!(*v => ms@[k as int].1));
                }
                let ok = check_wf(&ms[k].1);
                proof {
                    let w = vs.subrange(k as int, n as int);
                    assert(w[0] == vs[k as int]);
                    assert(w.subrange(1, w.len() as int) =~= vs.subrange(k as int + 1, n as int));
                }
                if !ok {
                    proof {
                        assert(!wf_membs(vs.subrange(k as int, n as int)));
                        assert(!wf_jval(vview(*v)));
                    }
                    return false;
                }
                k = k + 1;
            }
            proof {
                assert(vs.subrange(n as int, n as int) =~= Seq::<
                    (Seq<char>, crate::value::JVal),
                >::empty());
            }
            true
        },
    }
}

/// Serialize a value as compact JSON text: no insignificant whitespace,
/// members separated by `,`, key and value separated by `:`, object member
/// order kept exactly. Fails only on a value whose number token the
/// numeric grammar does not accept.
pub fn stringify(value: &Value) -> (r: Result<String, SerializeError>)
    ensures
        wf_jval(vview(*value)) ==> (r matches Ok(s) && s@ == ser(vview(*value))),
        !wf_jval(vview(*value)) ==> r is Err,
{
    if !check_wf(value) {
        return Err(SerializeError { msg: String::from_str("invalid number in value") });
    }
    let mut out: Vec<char> = Vec::new();
    write_value(value, &mut out);
    proof {
        assert(out@ =~= ser(vview(*value)));
    }
    Ok(string_from_chars(&out))
}

/// Serialize a value as indented JSON text: two spaces per nesting level,
/// each member and element on a line of its own, `": "` between a key and
/// its value, member order kept exactly. Fails only on a value whose
/// number token the numeric grammar does not accept.
pub fn pretty_print(value: &Value) -> (r: Result<String, SerializeError>)
    ensures
        wf_jval(vview(*value)) ==> (r matches Ok(s) && s@ == serp(vview(*value), 0)),
        !wf_jval(vview(*value)) ==> r is Err,
{
    if !check_wf(value) {
        return Err(SerializeError { msg: String::from_str("invalid number in value") });
    }
    let pad: Vec<char> = Vec::new();
    let mut out: Vec<char> = Vec::new();
    proof {
        assert(pad@ =~= sp_indent(0));
    }
    write_value_pretty(value, &pad, Ghost(0), &mut out);
    proof {
        assert(out@ =~= serp(vview(*value), 0));
    }
    Ok(string_from_chars(&out))
}

} // verus!
